//! The byte formats of the log: records, segment headers and checkpoints.
//!
//! Numbers stand least significant byte first. Every format begins with a
//! four-byte name, a two-byte version and two reserved bytes, and carries a
//! CRC-32 checksum over everything else in it.

use crate::bytes;
use crate::checksum;
use crate::text;
use vstd::prelude::*;
use vstd::slice::slice_subrange;

verus! {

/// The most bytes that the payload of a record may have.
pub const MAX_PAYLOAD: usize = 1024 * 1024;

/// The bytes of a record before its payload.
pub const RECORD_HEADER: usize = 24;

/// The bytes of a segment before its first record.
pub const SEGMENT_HEADER: usize = 32;

/// The bytes of a checkpoint.
pub const CHECKPOINT_SIZE: usize = 48;

/// What the beginning of a byte string holds of a record.
#[derive(Debug, PartialEq, Eq)]
pub enum Decode {
    /// Not all of a record is there.
    Incomplete,
    /// A whole record: its payload, and its size with the header.
    Complete { payload: Vec<u8>, size: usize },
}

/// The durable end of the log.
#[derive(Clone, Copy, Debug, PartialEq, Eq, Structural)]
pub struct Checkpoint {
    /// How many checkpoints were written before this one.
    pub generation: u64,
    /// The offset that the next record will get.
    pub end: u64,
    /// The offset of the first record of the last segment.
    pub base: u64,
    /// The bytes of the last segment that belong to the log.
    pub byte_end: u64,
}

/// The first eight bytes of every record: `KLGR`, version 1, nothing reserved.
pub open spec fn record_tag() -> Seq<u8> {
    seq![0x4b, 0x4c, 0x47, 0x52, 1, 0, 0, 0]
}

/// The first eight bytes of every segment: `KLGS`, version 1, nothing reserved.
pub open spec fn segment_tag() -> Seq<u8> {
    seq![0x4b, 0x4c, 0x47, 0x53, 1, 0, 0, 0]
}

/// The first eight bytes of every checkpoint: `KLGC`, version 1, nothing reserved.
pub open spec fn checkpoint_tag() -> Seq<u8> {
    seq![0x4b, 0x4c, 0x47, 0x43, 1, 0, 0, 0]
}

/// A number in a byte string: the `n` bytes from `at` on.
pub open spec fn field(bytes: Seq<u8>, at: int, n: int) -> nat {
    bytes::le_value(bytes.subrange(at, at + n))
}

/// `n` bytes that are zero.
pub open spec fn zeros(n: nat) -> Seq<u8> {
    Seq::new(n, |i: int| 0u8)
}

/// A record up to its checksum.
pub open spec fn record_head(offset: u64, len: nat) -> Seq<u8> {
    record_tag() + bytes::le_bytes(len, 4) + bytes::le_bytes(offset as nat, 8)
}

/// The bytes of the record that holds `payload` at `offset`.
pub open spec fn record_image(offset: u64, payload: Seq<u8>) -> Seq<u8> {
    let head = record_head(offset, payload.len());
    head + bytes::le_bytes(checksum::crc32(head + payload) as nat, 4) + payload
}

/// What a byte string holds of the record at offset `expected`: the payload of
/// a whole record, `None` where bytes are missing, or why it is no such record.
pub open spec fn decoded_record(bytes: Seq<u8>, expected: u64) -> Result<
    Option<Seq<u8>>,
    Seq<char>,
> {
    if bytes.len() < RECORD_HEADER {
        Ok(None)
    } else if bytes.take(8) != record_tag() {
        Err("invalid record header or unsupported version"@)
    } else if field(bytes, 8, 4) > MAX_PAYLOAD {
        Err("payload length exceeds limit"@)
    } else if field(bytes, 12, 8) != expected {
        Err("unexpected record offset, expected "@ + text::decimal(expected as nat))
    } else {
        let end = RECORD_HEADER + field(bytes, 8, 4);
        if bytes.len() < end {
            Ok(None)
        } else if field(bytes, 20, 4) != checksum::crc32(
            bytes.take(20) + bytes.subrange(24, end as int),
        ) {
            Err("checksum mismatch at offset "@ + text::decimal(expected as nat))
        } else {
            Ok(Some(bytes.subrange(24, end as int)))
        }
    }
}

/// The bytes of a segment header up to its checksum.
pub open spec fn segment_head(base: u64) -> Seq<u8> {
    segment_tag() + bytes::le_bytes(base as nat, 8) + zeros(12)
}

/// The header of the segment whose first record has offset `base`.
pub open spec fn segment_image(base: u64) -> Seq<u8> {
    segment_head(base) + bytes::le_bytes(checksum::crc32(segment_head(base)) as nat, 4)
}

/// The base that a byte string holds as a segment header, if it is one.
pub open spec fn decoded_segment(bytes: Seq<u8>) -> Option<u64> {
    let base = field(bytes, 8, 8) as u64;
    if bytes.len() == SEGMENT_HEADER && bytes == segment_image(base) {
        Some(base)
    } else {
        None
    }
}

impl Checkpoint {
    /// The bytes of a checkpoint up to its checksum.
    pub open spec fn head(self) -> Seq<u8> {
        checkpoint_tag() + bytes::le_bytes(self.generation as nat, 8) + bytes::le_bytes(
            self.end as nat,
            8,
        ) + bytes::le_bytes(self.base as nat, 8) + bytes::le_bytes(self.byte_end as nat, 8) + zeros(
            4,
        )
    }

    /// The bytes of a checkpoint.
    pub open spec fn image(self) -> Seq<u8> {
        self.head() + bytes::le_bytes(checksum::crc32(self.head()) as nat, 4)
    }
}

/// The checkpoint that a byte string holds, if it is one.
pub open spec fn decoded_checkpoint(bytes: Seq<u8>) -> Option<Checkpoint> {
    let checkpoint = Checkpoint {
        generation: field(bytes, 8, 8) as u64,
        end: field(bytes, 16, 8) as u64,
        base: field(bytes, 24, 8) as u64,
        byte_end: field(bytes, 32, 8) as u64,
    };
    if bytes.len() == CHECKPOINT_SIZE && bytes == checkpoint.image() {
        Some(checkpoint)
    } else {
        None
    }
}

/// Encodes the record that holds `payload` at `offset`.
pub fn encode_record(offset: u64, payload: &[u8]) -> (r: Result<Vec<u8>, String>)
    ensures
        match r {
            Ok(bytes) => payload@.len() <= MAX_PAYLOAD && bytes@ == record_image(offset, payload@),
            Err(message) => payload@.len() > MAX_PAYLOAD && message@ == "payload too large"@,
        },
{
    if payload.len() > MAX_PAYLOAD {
        return Err("payload too large".to_owned());
    }
    let mut bytes: Vec<u8> = Vec::with_capacity(RECORD_HEADER + payload.len());
    bytes::push_all(&mut bytes, &[0x4bu8, 0x4c, 0x47, 0x52]);
    bytes::push_le(&mut bytes, 1, 2);
    bytes::push_le(&mut bytes, 0, 2);
    assert(bytes@ =~= record_tag()) by {
        reveal_with_fuel(bytes::le_bytes, 3);
    }
    bytes::push_le(&mut bytes, payload.len() as u64, 4);
    bytes::push_le(&mut bytes, offset, 8);
    assert(bytes@ == record_head(offset, payload@.len()));
    proof {
        lemma_record_head(offset, payload@.len());
    }
    let mut crc = crc32fast::Hasher::new();
    crc.update(bytes.as_slice());
    assert(Seq::<u8>::empty() + bytes@ =~= bytes@);
    crc.update(payload);
    bytes::push_le(&mut bytes, crc.finalize() as u64, 4);
    bytes::push_all(&mut bytes, payload);
    Ok(bytes)
}

/// Whether a byte string begins with `KLG`, the letter given, version 1 and
/// nothing reserved.
pub(crate) fn has_tag(bytes: &[u8], letter: u8) -> (found: bool)
    requires
        bytes@.len() >= 8,
    ensures
        found == (bytes@.take(8) == seq![0x4b, 0x4c, 0x47, letter, 1u8, 0, 0, 0]),
{
    let found = bytes[0] == 0x4b && bytes[1] == 0x4c && bytes[2] == 0x47 && bytes[3] == letter
        && bytes[4] == 1 && bytes[5] == 0 && bytes[6] == 0 && bytes[7] == 0;
    proof {
        let tag = seq![0x4b, 0x4c, 0x47, letter, 1u8, 0, 0, 0];
        if found {
            assert(bytes@.take(8) =~= tag);
        } else if bytes@.take(8) == tag {
            assert forall|i: int| 0 <= i < 8 implies bytes@[i] == tag[i] by {
                assert(bytes@.take(8)[i] == bytes@[i]);
            }
        }
    }
    found
}

/// Decodes the record at offset `expected` from the beginning of `bytes`.
pub fn decode_record(bytes: &[u8], expected: u64) -> (r: Result<Decode, String>)
    ensures
        match decoded_record(bytes@, expected) {
            Ok(None) => r matches Ok(Decode::Incomplete),
            Ok(Some(payload)) => r matches Ok(Decode::Complete { payload: p, size }) && p@
                == payload && size == RECORD_HEADER + payload.len(),
            Err(message) => r matches Err(m) && m@ == message,
        },
{
    if bytes.len() < RECORD_HEADER {
        return Ok(Decode::Incomplete);
    }
    if !has_tag(bytes, 0x52) {
        return Err("invalid record header or unsupported version".to_owned());
    }
    proof {
        bytes::lemma_le_value_bound(bytes@.subrange(8, 12));
        bytes::lemma_le_value_bound(bytes@.subrange(20, 24));
        bytes::lemma_spans();
    }
    let length: u64 = bytes::read_le(bytes, 8, 4);
    if length > MAX_PAYLOAD as u64 {
        return Err("payload length exceeds limit".to_owned());
    }
    if bytes::read_le(bytes, 12, 8) != expected {
        let message = text::with_number("unexpected record offset, expected ", expected, "");
        assert(message@ =~= "unexpected record offset, expected "@ + text::decimal(
            expected as nat,
        )) by {
            reveal_strlit("");
        }
        return Err(message);
    }
    let end: usize = RECORD_HEADER + length as usize;
    if bytes.len() < end {
        return Ok(Decode::Incomplete);
    }
    let mut crc = crc32fast::Hasher::new();
    crc.update(slice_subrange(bytes, 0, 20));
    assert(Seq::<u8>::empty() + bytes@.subrange(0, 20) =~= bytes@.take(20));
    crc.update(slice_subrange(bytes, 24, end));
    if crc.finalize() as u64 != bytes::read_le(bytes, 20, 4) {
        let message = text::with_number("checksum mismatch at offset ", expected, "");
        assert(message@ =~= "checksum mismatch at offset "@ + text::decimal(expected as nat)) by {
            reveal_strlit("");
        }
        return Err(message);
    }
    Ok(Decode::Complete { payload: bytes::copy_range(bytes, 24, end), size: end })
}

/// A vector's bytes as an array.
fn to_array<const N: usize>(bytes: &Vec<u8>) -> (array: [u8; N])
    requires
        bytes@.len() == N,
    ensures
        array@ == bytes@,
{
    let mut array: [u8; N] = [0u8; N];
    let mut i: usize = 0;
    while i < N
        invariant
            i <= N,
            bytes@.len() == N,
            forall|k: int| 0 <= k < i ==> array@[k] == bytes@[k],
        decreases N - i,
    {
        array[i] = bytes[i];
        i += 1;
    }
    assert(array@ =~= bytes@);
    array
}

/// Appends `n` zero bytes.
fn push_zeros(out: &mut Vec<u8>, n: usize)
    ensures
        final(out)@ == old(out)@ + zeros(n as nat),
{
    let mut i: usize = 0;
    while i < n
        invariant
            i <= n,
            out@ == old(out)@ + zeros(i as nat),
        decreases n - i,
    {
        out.push(0);
        i += 1;
        assert(out@ =~= old(out)@ + zeros(i as nat));
    }
    assert(out@ =~= old(out)@ + zeros(n as nat));
}

/// Encodes the header of the segment whose first record has offset `base`.
pub fn segment_header(base: u64) -> (header: [u8; SEGMENT_HEADER])
    ensures
        header@ == segment_image(base),
{
    let mut bytes: Vec<u8> = Vec::with_capacity(SEGMENT_HEADER);
    bytes::push_all(&mut bytes, &[0x4bu8, 0x4c, 0x47, 0x53, 1, 0, 0, 0]);
    assert(bytes@ =~= segment_tag());
    bytes::push_le(&mut bytes, base, 8);
    push_zeros(&mut bytes, 12);
    let crc: u32 = crc32fast::hash(bytes.as_slice());
    bytes::push_le(&mut bytes, crc as u64, 4);
    proof {
        lemma_image_lengths(base);
    }
    to_array(&bytes)
}

/// Decodes a segment header.
pub fn decode_segment(bytes: &[u8]) -> (r: Result<u64, String>)
    ensures
        match decoded_segment(bytes@) {
            Some(base) => r == Ok::<u64, String>(base),
            None => r matches Err(m) && m@ == "invalid segment header"@,
        },
{
    if bytes.len() != SEGMENT_HEADER {
        return Err("invalid segment header".to_owned());
    }
    let base: u64 = bytes::read_le(bytes, 8, 8);
    if !bytes::same_bytes(bytes, &segment_header(base)) {
        return Err("invalid segment header".to_owned());
    }
    Ok(base)
}

impl Checkpoint {
    /// Encodes a checkpoint.
    pub fn encode(self) -> (bytes: [u8; 48])
        ensures
            bytes@ == self.image(),
    {
        let mut bytes: Vec<u8> = Vec::with_capacity(CHECKPOINT_SIZE);
        bytes::push_all(&mut bytes, &[0x4bu8, 0x4c, 0x47, 0x43, 1, 0, 0, 0]);
        assert(bytes@ =~= checkpoint_tag());
        bytes::push_le(&mut bytes, self.generation, 8);
        bytes::push_le(&mut bytes, self.end, 8);
        bytes::push_le(&mut bytes, self.base, 8);
        bytes::push_le(&mut bytes, self.byte_end, 8);
        push_zeros(&mut bytes, 4);
        let crc: u32 = crc32fast::hash(bytes.as_slice());
        bytes::push_le(&mut bytes, crc as u64, 4);
        proof {
            self.lemma_image_length();
        }
        to_array(&bytes)
    }

    /// Decodes a checkpoint.
    pub fn decode(bytes: &[u8]) -> (r: Result<Self, String>)
        ensures
            match decoded_checkpoint(bytes@) {
                Some(checkpoint) => r == Ok::<Self, String>(checkpoint),
                None => r matches Err(m) && m@ == "invalid checkpoint"@,
            },
    {
        if bytes.len() != CHECKPOINT_SIZE {
            return Err("invalid checkpoint".to_owned());
        }
        let checkpoint = Checkpoint {
            generation: bytes::read_le(bytes, 8, 8),
            end: bytes::read_le(bytes, 16, 8),
            base: bytes::read_le(bytes, 24, 8),
            byte_end: bytes::read_le(bytes, 32, 8),
        };
        if !bytes::same_bytes(bytes, &checkpoint.encode()) {
            return Err("invalid checkpoint".to_owned());
        }
        Ok(checkpoint)
    }

    pub proof fn lemma_image_length(self)
        ensures
            self.head().len() == 44,
            self.image().len() == CHECKPOINT_SIZE,
    {
        bytes::lemma_le_bytes_len(self.generation as nat, 8);
        bytes::lemma_le_bytes_len(self.end as nat, 8);
        bytes::lemma_le_bytes_len(self.base as nat, 8);
        bytes::lemma_le_bytes_len(self.byte_end as nat, 8);
        bytes::lemma_le_bytes_len(checksum::crc32(self.head()) as nat, 4);
    }

    /// Decoding an encoded checkpoint gives the checkpoint back.
    pub proof fn checkpoint_roundtrip(self)
        ensures
            decoded_checkpoint(self.image()) == Some(self),
    {
        self.lemma_image_length();
        bytes::lemma_spans();
        bytes::le_value_of_le_bytes(self.generation as nat, 8);
        bytes::le_value_of_le_bytes(self.end as nat, 8);
        bytes::le_value_of_le_bytes(self.base as nat, 8);
        bytes::le_value_of_le_bytes(self.byte_end as nat, 8);
        let image = self.image();
        assert(image.subrange(8, 16) =~= bytes::le_bytes(self.generation as nat, 8));
        assert(image.subrange(16, 24) =~= bytes::le_bytes(self.end as nat, 8));
        assert(image.subrange(24, 32) =~= bytes::le_bytes(self.base as nat, 8));
        assert(image.subrange(32, 40) =~= bytes::le_bytes(self.byte_end as nat, 8));
    }
}

/// A record's head has 20 bytes.
proof fn lemma_record_head(offset: u64, len: nat)
    ensures
        record_head(offset, len).len() == 20,
{
    bytes::lemma_le_bytes_len(len, 4);
    bytes::lemma_le_bytes_len(offset as nat, 8);
}

proof fn lemma_image_lengths(base: u64)
    ensures
        segment_head(base).len() == 28,
        segment_image(base).len() == SEGMENT_HEADER,
{
    bytes::lemma_le_bytes_len(base as nat, 8);
    bytes::lemma_le_bytes_len(checksum::crc32(segment_head(base)) as nat, 4);
}

/// Decoding an encoded segment header gives the base back.
pub proof fn segment_roundtrip(base: u64)
    ensures
        decoded_segment(segment_image(base)) == Some(base),
        segment_image(base).len() == SEGMENT_HEADER,
{
    lemma_image_lengths(base);
    bytes::lemma_spans();
    bytes::le_value_of_le_bytes(base as nat, 8);
    assert(segment_image(base).subrange(8, 16) =~= bytes::le_bytes(base as nat, 8));
}

/// The parts of a record's bytes: where they stand and what they hold.
pub proof fn lemma_record_fields(offset: u64, payload: Seq<u8>)
    requires
        payload.len() <= MAX_PAYLOAD,
    ensures
        ({
            let image = record_image(offset, payload);
            let head = record_head(offset, payload.len());
            &&& image.len() == RECORD_HEADER + payload.len()
            &&& image.take(8) == record_tag()
            &&& field(image, 8, 4) == payload.len()
            &&& field(image, 12, 8) == offset
            &&& field(image, 20, 4) == checksum::crc32(head + payload)
            &&& image.take(20) == head
            &&& image.subrange(24, 24int + payload.len()) == payload
        }),
{
    let image = record_image(offset, payload);
    let head = record_head(offset, payload.len());
    let crc = checksum::crc32(head + payload);
    lemma_record_head(offset, payload.len());
    bytes::lemma_spans();
    bytes::le_value_of_le_bytes(payload.len(), 4);
    bytes::le_value_of_le_bytes(offset as nat, 8);
    bytes::le_value_of_le_bytes(crc as nat, 4);
    assert(image.take(8) =~= record_tag());
    assert(image.subrange(8, 12) =~= bytes::le_bytes(payload.len(), 4));
    assert(image.subrange(12, 20) =~= bytes::le_bytes(offset as nat, 8));
    assert(image.subrange(20, 24) =~= bytes::le_bytes(crc as nat, 4));
    assert(image.take(20) =~= head);
    assert(image.subrange(24, 24int + payload.len()) =~= payload);
}

/// Decoding a byte string that begins with an encoded record gives the
/// record's payload back, whatever follows it.
pub proof fn record_roundtrip(offset: u64, payload: Seq<u8>, rest: Seq<u8>)
    requires
        payload.len() <= MAX_PAYLOAD,
    ensures
        decoded_record(record_image(offset, payload) + rest, offset) == Ok::<
            Option<Seq<u8>>,
            Seq<char>,
        >(Some(payload)),
{
    let image = record_image(offset, payload);
    let all = image + rest;
    lemma_record_fields(offset, payload);
    assert(all.take(8) =~= image.take(8));
    assert(all.subrange(8, 12) =~= image.subrange(8, 12));
    assert(all.subrange(12, 20) =~= image.subrange(12, 20));
    assert(all.subrange(20, 24) =~= image.subrange(20, 24));
    assert(all.take(20) =~= image.take(20));
    assert(all.subrange(24, 24int + payload.len()) =~= image.subrange(24, 24int + payload.len()));
}

/// A record that was cut short is incomplete, wherever it was cut: a missing
/// end is never taken for damage.
pub proof fn cut_record_is_incomplete(offset: u64, payload: Seq<u8>, n: int)
    requires
        payload.len() <= MAX_PAYLOAD,
        0 <= n < record_image(offset, payload).len(),
    ensures
        decoded_record(record_image(offset, payload).take(n), offset) == Ok::<
            Option<Seq<u8>>,
            Seq<char>,
        >(None),
{
    let image = record_image(offset, payload);
    let cut = image.take(n);
    lemma_record_fields(offset, payload);
    if n >= RECORD_HEADER {
        assert(cut.take(8) =~= image.take(8));
        assert(cut.subrange(8, 12) =~= image.subrange(8, 12));
        assert(cut.subrange(12, 20) =~= image.subrange(12, 20));
    }
}

/// What decodes as a whole record is, byte for byte, the encoding of its
/// payload at the offset expected.
pub proof fn decoded_record_is_canonical(bytes: Seq<u8>, expected: u64, payload: Seq<u8>)
    requires
        decoded_record(bytes, expected) == Ok::<Option<Seq<u8>>, Seq<char>>(Some(payload)),
    ensures
        payload.len() <= MAX_PAYLOAD,
        bytes.len() >= RECORD_HEADER + payload.len(),
        bytes.take((RECORD_HEADER + payload.len()) as int) == record_image(expected, payload),
{
    let end = (RECORD_HEADER + payload.len()) as int;
    let image = record_image(expected, payload);
    let whole = bytes.take(end);
    bytes::le_bytes_of_le_value(bytes.subrange(8, 12));
    bytes::le_bytes_of_le_value(bytes.subrange(12, 20));
    bytes::le_bytes_of_le_value(bytes.subrange(20, 24));
    lemma_record_fields(expected, payload);
    assert(bytes.take(20) =~= bytes.take(8) + bytes.subrange(8, 12) + bytes.subrange(12, 20));
    assert(bytes.take(20) == record_head(expected, payload.len()));
    assert(whole =~= bytes.take(20) + bytes.subrange(20, 24) + bytes.subrange(24, end));
}

/// A record is refused where another offset was expected.
pub proof fn misplaced_record_is_refused(offset: u64, payload: Seq<u8>, expected: u64)
    requires
        payload.len() <= MAX_PAYLOAD,
        offset != expected,
    ensures
        decoded_record(record_image(offset, payload), expected) is Err,
{
    lemma_record_fields(offset, payload);
}

/// A byte string whose head is a record's and whose checksum does not match
/// the rest of it is refused.
pub proof fn damaged_record_is_refused(bytes: Seq<u8>, expected: u64)
    requires
        bytes.len() >= RECORD_HEADER,
        bytes.len() >= RECORD_HEADER + field(bytes, 8, 4),
        field(bytes, 20, 4) != checksum::crc32(
            bytes.take(20) + bytes.subrange(24, RECORD_HEADER + field(bytes, 8, 4)),
        ),
    ensures
        decoded_record(bytes, expected) is Err,
{
}

/// Fields that differ in a byte hold different numbers.
proof fn lemma_field_differs(a: Seq<u8>, b: Seq<u8>, at: int, n: int, k: int)
    requires
        checksum::differ_at(a, b, k),
        0 <= at <= k < at + n <= a.len(),
    ensures
        field(a, at, n) != field(b, at, n),
{
    let x = a.subrange(at, at + n);
    let y = b.subrange(at, at + n);
    assert(x[k - at] != y[k - at]);
    bytes::le_bytes_of_le_value(x);
    bytes::le_bytes_of_le_value(y);
}

/// A record of which one byte is damaged is refused, whatever the damage, unless
/// it is in the length: another length says that the record ends elsewhere.
pub proof fn damaged_byte_of_record_is_refused(
    offset: u64,
    payload: Seq<u8>,
    damaged: Seq<u8>,
    k: int,
)
    requires
        payload.len() <= MAX_PAYLOAD,
        checksum::differ_at(record_image(offset, payload), damaged, k),
        k < 8 || 12 <= k,
    ensures
        decoded_record(damaged, offset) is Err,
{
    let image = record_image(offset, payload);
    let end = image.len() as int;
    lemma_record_fields(offset, payload);
    if k < 8 {
        assert(damaged.take(8)[k] != image.take(8)[k]);
    } else {
        assert(damaged.take(8) =~= image.take(8));
        assert(damaged.subrange(8, 12) =~= image.subrange(8, 12));
        let sealed = image.take(20) + image.subrange(24, end);
        let found = damaged.take(20) + damaged.subrange(24, end);
        if k < 20 {
            lemma_field_differs(image, damaged, 12, 8, k);
        } else if k < 24 {
            lemma_field_differs(image, damaged, 20, 4, k);
            assert(found =~= sealed);
        } else {
            assert(damaged.subrange(20, 24) =~= image.subrange(20, 24));
            assert(checksum::differ_at(sealed, found, k - 4));
            checksum::damaged_byte_changes_the_checksum(sealed, found, k - 4);
        }
    }
}

/// The checksums of byte strings that differ in a byte are not written the same.
proof fn lemma_sealed_differs(a: Seq<u8>, b: Seq<u8>, k: int)
    requires
        checksum::differ_at(a, b, k),
    ensures
        bytes::le_bytes(checksum::crc32(a) as nat, 4) != bytes::le_bytes(
            checksum::crc32(b) as nat,
            4,
        ),
{
    checksum::damaged_byte_changes_the_checksum(a, b, k);
    bytes::lemma_spans();
    bytes::le_value_of_le_bytes(checksum::crc32(a) as nat, 4);
    bytes::le_value_of_le_bytes(checksum::crc32(b) as nat, 4);
}

/// A segment header of which one byte is damaged is refused.
pub proof fn damaged_byte_of_header_is_refused(base: u64, damaged: Seq<u8>, k: int)
    requires
        checksum::differ_at(segment_image(base), damaged, k),
    ensures
        decoded_segment(damaged) is None,
{
    lemma_image_lengths(base);
    if let Some(other) = decoded_segment(damaged) {
        lemma_image_lengths(other);
        let a = segment_head(base);
        let b = segment_head(other);
        let image = segment_image(base);
        assert(image.take(28) =~= a);
        assert(damaged.take(28) =~= b);
        if k < 28 {
            assert(checksum::differ_at(a, b, k));
            lemma_sealed_differs(a, b, k);
            assert(image.skip(28) =~= damaged.skip(28));
            assert(image.skip(28) =~= bytes::le_bytes(checksum::crc32(a) as nat, 4));
            assert(damaged.skip(28) =~= bytes::le_bytes(checksum::crc32(b) as nat, 4));
        } else {
            assert(a =~= b);
        }
    }
}

impl Checkpoint {
    /// A checkpoint of which one byte is damaged is refused.
    pub proof fn damaged_byte_is_refused(self, damaged: Seq<u8>, k: int)
        requires
            checksum::differ_at(self.image(), damaged, k),
        ensures
            decoded_checkpoint(damaged) is None,
    {
        self.lemma_image_length();
        if let Some(other) = decoded_checkpoint(damaged) {
            other.lemma_image_length();
            let a = self.head();
            let b = other.head();
            let image = self.image();
            assert(image.take(44) =~= a);
            assert(damaged.take(44) =~= b);
            if k < 44 {
                assert(checksum::differ_at(a, b, k));
                lemma_sealed_differs(a, b, k);
                assert(image.skip(44) =~= damaged.skip(44));
                assert(image.skip(44) =~= bytes::le_bytes(checksum::crc32(a) as nat, 4));
                assert(damaged.skip(44) =~= bytes::le_bytes(checksum::crc32(b) as nat, 4));
            } else {
                assert(a =~= b);
            }
        }
    }
}

/// Where the bytes of a record stand, byte by byte: `KLGR`, version 1, nothing
/// reserved, the payload's length, the offset, the checksum of all the rest, and
/// the payload.
pub proof fn record_bytes_stand_in_place(offset: u64, payload: Seq<u8>)
    requires
        payload.len() <= 1024 * 1024,
    ensures
        ({
            let image = record_image(offset, payload);
            &&& image.len() == 24 + payload.len()
            &&& image.take(8) == seq![0x4bu8, 0x4c, 0x47, 0x52, 1, 0, 0, 0]
            &&& bytes::le_value(image.subrange(8, 12)) == payload.len()
            &&& bytes::le_value(image.subrange(12, 20)) == offset
            &&& bytes::le_value(image.subrange(20, 24)) == checksum::crc32(image.take(20) + payload)
            &&& image.skip(24) == payload
        }),
{
    let image = record_image(offset, payload);
    lemma_record_fields(offset, payload);
    assert(image.skip(24) =~= image.subrange(24, 24int + payload.len()));
}

/// Where the bytes of a segment header stand, byte by byte: `KLGS`, version 1,
/// nothing reserved, the base, twelve zeros, and the checksum of all the rest.
pub proof fn header_bytes_stand_in_place(base: u64)
    ensures
        ({
            let image = segment_image(base);
            &&& image.len() == 32
            &&& image.take(8) == seq![0x4bu8, 0x4c, 0x47, 0x53, 1, 0, 0, 0]
            &&& bytes::le_value(image.subrange(8, 16)) == base
            &&& forall|i: int| 16 <= i < 28 ==> image[i] == 0
            &&& bytes::le_value(image.subrange(28, 32)) == checksum::crc32(image.take(28))
        }),
{
    let image = segment_image(base);
    let crc = checksum::crc32(segment_head(base));
    segment_roundtrip(base);
    lemma_image_lengths(base);
    bytes::lemma_spans();
    bytes::le_value_of_le_bytes(base as nat, 8);
    bytes::le_value_of_le_bytes(crc as nat, 4);
    assert(image.take(8) =~= segment_tag());
    assert(image.take(28) =~= segment_head(base));
    assert(image.subrange(8, 16) =~= bytes::le_bytes(base as nat, 8));
    assert(image.subrange(28, 32) =~= bytes::le_bytes(crc as nat, 4));
}

/// What is decoded of bytes at an offset, said of the bytes themselves: nothing
/// where a record's header or its payload is not all there, the payload where the
/// checksum is right, and else what is wrong.
pub proof fn record_is_decoded_by_its_bytes(bytes: Seq<u8>, expected: u64)
    ensures
        ({
            let length = bytes::le_value(bytes.subrange(8, 12));
            let offset = bytes::le_value(bytes.subrange(12, 20));
            let sum = bytes::le_value(bytes.subrange(20, 24));
            let end = (24 + length) as int;
            let r = decoded_record(bytes, expected);
            if bytes.len() < 24 {
                r == Ok::<Option<Seq<u8>>, Seq<char>>(None)
            } else if bytes.take(8) != seq![0x4bu8, 0x4c, 0x47, 0x52, 1, 0, 0, 0] {
                r == Err::<Option<Seq<u8>>, Seq<char>>(
                    "invalid record header or unsupported version"@,
                )
            } else if length > 1024 * 1024 {
                r == Err::<Option<Seq<u8>>, Seq<char>>("payload length exceeds limit"@)
            } else if offset != expected {
                r == Err::<Option<Seq<u8>>, Seq<char>>(
                    "unexpected record offset, expected "@ + text::decimal(expected as nat),
                )
            } else if bytes.len() < end {
                r == Ok::<Option<Seq<u8>>, Seq<char>>(None)
            } else if sum != checksum::crc32(bytes.take(20) + bytes.subrange(24, end)) {
                r == Err::<Option<Seq<u8>>, Seq<char>>(
                    "checksum mismatch at offset "@ + text::decimal(expected as nat),
                )
            } else {
                r == Ok::<Option<Seq<u8>>, Seq<char>>(Some(bytes.subrange(24, end)))
            }
        }),
{
}

/// A segment header is decoded to its base where its name, its version, its zeros
/// and its checksum are right, and nothing else is decoded.
pub proof fn header_is_decoded_by_its_bytes(bytes: Seq<u8>)
    ensures
        ({
            let right = bytes.len() == 32 && bytes.take(8) == seq![
                0x4bu8,
                0x4c,
                0x47,
                0x53,
                1,
                0,
                0,
                0,
            ] && (forall|i: int| 16 <= i < 28 ==> bytes[i] == 0) && bytes::le_value(
                bytes.subrange(28, 32),
            ) == checksum::crc32(bytes.take(28));
            match decoded_segment(bytes) {
                Some(base) => right && base == bytes::le_value(bytes.subrange(8, 16)),
                None => !right,
            }
        }),
{
    let base = field(bytes, 8, 8) as u64;
    if bytes.len() == 32 {
        bytes::lemma_spans();
        bytes::lemma_le_value_bound(bytes.subrange(8, 16));
        bytes::le_bytes_of_le_value(bytes.subrange(8, 16));
        bytes::le_bytes_of_le_value(bytes.subrange(28, 32));
        header_bytes_stand_in_place(base);
        lemma_image_lengths(base);
        let image = segment_image(base);
        if bytes.take(8) == segment_tag() && (forall|i: int| 16 <= i < 28 ==> bytes[i] == 0) {
            assert(bytes.take(28) =~= segment_head(base)) by {
                let head = segment_head(base);
                assert forall|i: int| 0 <= i < 28 implies bytes[i] == head[i] by {
                    if i < 8 {
                        assert(bytes.take(8)[i] == bytes[i]);
                    } else if i < 16 {
                        assert(bytes.subrange(8, 16)[i - 8] == bytes[i]);
                    }
                }
            }
            if bytes::le_value(bytes.subrange(28, 32)) == checksum::crc32(bytes.take(28)) {
                assert(bytes =~= bytes.take(28) + bytes.subrange(28, 32));
                assert(bytes =~= image);
            }
        }
    }
}

impl Checkpoint {
    /// Where the bytes of a checkpoint stand, byte by byte: `KLGC`, version 1,
    /// nothing reserved, the generation, the end, the base, the byte end, four
    /// zeros, and the checksum of all the rest.
    pub proof fn bytes_stand_in_place(self)
        ensures
            ({
                let image = self.image();
                &&& image.len() == 48
                &&& image.take(8) == seq![0x4bu8, 0x4c, 0x47, 0x43, 1, 0, 0, 0]
                &&& bytes::le_value(image.subrange(8, 16)) == self.generation
                &&& bytes::le_value(image.subrange(16, 24)) == self.end
                &&& bytes::le_value(image.subrange(24, 32)) == self.base
                &&& bytes::le_value(image.subrange(32, 40)) == self.byte_end
                &&& forall|i: int| 40 <= i < 44 ==> image[i] == 0
                &&& bytes::le_value(image.subrange(44, 48)) == checksum::crc32(image.take(44))
            }),
    {
        let image = self.image();
        let crc = checksum::crc32(self.head());
        self.lemma_image_length();
        bytes::lemma_spans();
        bytes::le_value_of_le_bytes(self.generation as nat, 8);
        bytes::le_value_of_le_bytes(self.end as nat, 8);
        bytes::le_value_of_le_bytes(self.base as nat, 8);
        bytes::le_value_of_le_bytes(self.byte_end as nat, 8);
        bytes::le_value_of_le_bytes(crc as nat, 4);
        assert(image.take(8) =~= checkpoint_tag());
        assert(image.take(44) =~= self.head());
        assert(image.subrange(8, 16) =~= bytes::le_bytes(self.generation as nat, 8));
        assert(image.subrange(16, 24) =~= bytes::le_bytes(self.end as nat, 8));
        assert(image.subrange(24, 32) =~= bytes::le_bytes(self.base as nat, 8));
        assert(image.subrange(32, 40) =~= bytes::le_bytes(self.byte_end as nat, 8));
        assert(image.subrange(44, 48) =~= bytes::le_bytes(crc as nat, 4));
    }
}

/// A checkpoint is decoded where its name, its version, its zeros and its checksum
/// are right, and nothing else is decoded.
pub proof fn checkpoint_is_decoded_by_its_bytes(bytes: Seq<u8>)
    ensures
        ({
            let right = bytes.len() == 48 && bytes.take(8) == seq![
                0x4bu8,
                0x4c,
                0x47,
                0x43,
                1,
                0,
                0,
                0,
            ] && (forall|i: int| 40 <= i < 44 ==> bytes[i] == 0) && bytes::le_value(
                bytes.subrange(44, 48),
            ) == checksum::crc32(bytes.take(44));
            match decoded_checkpoint(bytes) {
                Some(c) => {
                    &&& right
                    &&& c.generation == bytes::le_value(bytes.subrange(8, 16))
                    &&& c.end == bytes::le_value(bytes.subrange(16, 24))
                    &&& c.base == bytes::le_value(bytes.subrange(24, 32))
                    &&& c.byte_end == bytes::le_value(bytes.subrange(32, 40))
                },
                None => !right,
            }
        }),
{
    let c = Checkpoint {
        generation: field(bytes, 8, 8) as u64,
        end: field(bytes, 16, 8) as u64,
        base: field(bytes, 24, 8) as u64,
        byte_end: field(bytes, 32, 8) as u64,
    };
    if bytes.len() == 48 {
        bytes::lemma_spans();
        bytes::lemma_le_value_bound(bytes.subrange(8, 16));
        bytes::lemma_le_value_bound(bytes.subrange(16, 24));
        bytes::lemma_le_value_bound(bytes.subrange(24, 32));
        bytes::lemma_le_value_bound(bytes.subrange(32, 40));
        bytes::le_bytes_of_le_value(bytes.subrange(8, 16));
        bytes::le_bytes_of_le_value(bytes.subrange(16, 24));
        bytes::le_bytes_of_le_value(bytes.subrange(24, 32));
        bytes::le_bytes_of_le_value(bytes.subrange(32, 40));
        bytes::le_bytes_of_le_value(bytes.subrange(44, 48));
        c.bytes_stand_in_place();
        c.lemma_image_length();
        let image = c.image();
        if bytes.take(8) == checkpoint_tag() && (forall|i: int| 40 <= i < 44 ==> bytes[i] == 0) {
            assert(bytes.take(44) =~= c.head()) by {
                let head = c.head();
                assert forall|i: int| 0 <= i < 44 implies bytes[i] == head[i] by {
                    if i < 8 {
                        assert(bytes.take(8)[i] == bytes[i]);
                    } else if i < 16 {
                        assert(bytes.subrange(8, 16)[i - 8] == bytes[i]);
                    } else if i < 24 {
                        assert(bytes.subrange(16, 24)[i - 16] == bytes[i]);
                    } else if i < 32 {
                        assert(bytes.subrange(24, 32)[i - 24] == bytes[i]);
                    } else if i < 40 {
                        assert(bytes.subrange(32, 40)[i - 32] == bytes[i]);
                    }
                }
            }
            if bytes::le_value(bytes.subrange(44, 48)) == checksum::crc32(bytes.take(44)) {
                assert(bytes =~= bytes.take(44) + bytes.subrange(44, 48));
                assert(bytes =~= image);
            }
        }
    }
}

} // verus!
