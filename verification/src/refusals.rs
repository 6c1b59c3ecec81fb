//! What is refused when a store is opened, and what is said of it.
//!
//! Each law here says, of the bytes, names and numbers that recovery meets, when
//! it goes on and when it stops, and with which message.

use crate::bytes;
use crate::checksum;
use crate::format::Checkpoint;
use crate::replay;
use crate::replay::Disk;
use crate::soundness;
use crate::storage::records;
use crate::storage::recovery;
use crate::storage::recovery::{Entry, Progress, RecoveryView, SettledView};
use crate::text;
use vstd::prelude::*;

verus! {

/// What stands at a place in a segment file, said of the bytes themselves.
pub proof fn record_is_found_by_its_bytes(
    file: Seq<u8>,
    position: int,
    boundary: int,
    expected: u64,
)
    requires
        0 <= position <= boundary <= file.len(),
    ensures
        ({
            let room = boundary - position;
            let length = bytes::le_value(file.subrange(position + 8, position + 12));
            let offset = bytes::le_value(file.subrange(position + 12, position + 20));
            let sum = bytes::le_value(file.subrange(position + 20, position + 24));
            let payload = file.subrange(position + 24, position + 24 + length);
            let found = records::found(file, position, boundary, expected);
            if room < 24 {
                found == Ok::<Option<Seq<u8>>, Seq<char>>(None)
            } else if file.subrange(position, position + 8) != seq![
                0x4bu8,
                0x4c,
                0x47,
                0x52,
                1,
                0,
                0,
                0,
            ] {
                found == Err::<Option<Seq<u8>>, Seq<char>>(
                    "invalid record header at byte "@ + text::decimal(position as nat),
                )
            } else if length > 1024 * 1024 {
                found == Err::<Option<Seq<u8>>, Seq<char>>(
                    "oversized record at byte "@ + text::decimal(position as nat),
                )
            } else if room < 24 + length {
                found == Ok::<Option<Seq<u8>>, Seq<char>>(None)
            } else if offset != expected {
                found == Err::<Option<Seq<u8>>, Seq<char>>(
                    "unexpected record offset, expected "@ + text::decimal(expected as nat),
                )
            } else if sum != checksum::crc32(
                file.subrange(position, position + 20) + payload,
            ) {
                found == Err::<Option<Seq<u8>>, Seq<char>>(
                    "checksum mismatch at offset "@ + text::decimal(expected as nat),
                )
            } else {
                found == Ok::<Option<Seq<u8>>, Seq<char>>(Some(payload))
            }
        }),
{
    let room = boundary - position;
    let length = bytes::le_value(file.subrange(position + 8, position + 12));
    if room >= 24 {
        let head = file.subrange(position, position + 24);
        assert(head.take(8) =~= file.subrange(position, position + 8));
        assert(head.subrange(8, 12) =~= file.subrange(position + 8, position + 12));
        if room >= 24 + length {
            let record = file.subrange(position, position + 24 + length);
            assert(record.take(8) =~= file.subrange(position, position + 8));
            assert(record.take(20) =~= file.subrange(position, position + 20));
            assert(record.subrange(8, 12) =~= file.subrange(position + 8, position + 12));
            assert(record.subrange(12, 20) =~= file.subrange(position + 12, position + 20));
            assert(record.subrange(20, 24) =~= file.subrange(position + 20, position + 24));
            assert(record.subrange(24, 24int + length) =~= file.subrange(
                position + 24,
                position + 24 + length,
            ));
        }
    }
}

/// What is cut off an opened store's last segment file is nothing but an
/// unfinished record: fewer bytes than a record's header, or bytes that begin as
/// every record does and hold a payload's length that reaches past the file.
pub proof fn only_an_unfinished_record_is_cut_off(limit: u64, disk: Disk, bases: Seq<u64>)
    requires
        replay::listed(disk.segments, bases),
        replay::recovered(limit, disk, bases) is Ok,
    ensures
        ({
            let r = replay::recovered(limit, disk, bases)->Ok_0;
            let last = r.store.segments.last();
            let file = disk.segments[last.base];
            let rest = file.skip(last.byte_end as int);
            let length = bytes::le_value(rest.subrange(8, 12));
            &&& last.byte_end <= file.len()
            &&& match r.cut {
                None => rest.len() == 0,
                Some(at) => at == last.byte_end && rest.len() > 0 && (rest.len() < 24 || (rest.take(
                    8,
                ) == seq![0x4bu8, 0x4c, 0x47, 0x52, 1, 0, 0, 0] && length <= 1024 * 1024
                    && rest.len() < 24 + length)),
            }
        }),
{
    let (checkpoint, layout, c, m, tail) = soundness::only_a_log_is_recovered(limit, disk, bases);
    let n = layout.len() as int;
    let whole = crate::history::file_of(layout, n - 1);
    replay::lemma_segment_wf(layout, limit, n - 1);
    let r = replay::recovered(limit, disk, bases)->Ok_0;
    assert(r.store.segments.last() == crate::history::segments_of(layout)[n - 1]);
    assert(disk.segments[crate::history::start(layout, n - 1) as u64] == whole + tail);
    assert((whole + tail).skip(whole.len() as int) =~= tail);
}

/// Where an opening begins: with a limit of 56 bytes to 64 mebibytes and a whole
/// checkpoint that is not in front of the segment's header.
pub proof fn opening_begins_with_a_checkpoint(limit: u64, bytes: Seq<u8>)
    ensures
        ({
            let opened = recovery::opened(limit, bytes);
            match crate::format::decoded_checkpoint(bytes) {
                _ if !(56 <= limit <= 64 * 1024 * 1024) => opened == Err::<Checkpoint, Seq<char>>(
                    "invalid segment limit"@,
                ),
                None => opened == Err::<Checkpoint, Seq<char>>("invalid checkpoint"@),
                Some(checkpoint) => if checkpoint.byte_end < 32 {
                    opened == Err::<Checkpoint, Seq<char>>("checkpoint byte end before header"@)
                } else {
                    opened == Ok::<Checkpoint, Seq<char>>(checkpoint)
                },
            }
        }),
{
}

/// Whether a file name is 20 digits and then four characters.
pub open spec fn is_numbered(name: Seq<char>, a: char, b: char, c: char, d: char) -> bool {
    &&& name.len() == 24
    &&& forall|i: int| 0 <= i < 20 ==> 48 <= (#[trigger] name[i]) as int <= 57
    &&& name[20] == a
    &&& name[21] == b
    &&& name[22] == c
    &&& name[23] == d
}

proof fn lemma_numbered(name: Seq<char>)
    ensures
        recovery::numbered(name, ".log"@) <==> is_numbered(name, '.', 'l', 'o', 'g'),
        recovery::numbered(name, ".tmp"@) <==> is_numbered(name, '.', 't', 'm', 'p'),
{
    reveal_strlit(".log");
    reveal_strlit(".tmp");
    if name.len() == 24 {
        let digits = name.take(20);
        let end = name.skip(20);
        assert(end.len() == 4);
        assert(end[0] == name[20] && end[1] == name[21] && end[2] == name[22] && end[3]
            == name[23]);
        if text::all_digits(digits) {
            assert forall|i: int| 0 <= i < 20 implies 48 <= (#[trigger] name[i]) as int <= 57 by {
                assert(text::is_digit(digits[i]));
            }
        }
        if forall|i: int| 0 <= i < 20 ==> 48 <= (#[trigger] name[i]) as int <= 57 {
            assert forall|i: int| 0 <= i < digits.len() implies text::is_digit(
                #[trigger] digits[i],
            ) by {
                assert(48 <= name[i] as int <= 57);
            }
        }
        if is_numbered(name, '.', 'l', 'o', 'g') {
            assert(end =~= ".log"@);
        }
        if is_numbered(name, '.', 't', 'm', 'p') {
            assert(end =~= ".tmp"@);
        }
    }
}

/// What the entries of a directory are, by the characters of their names.
pub proof fn entries_are_told_by_their_names(name: Seq<char>)
    ensures
        ({
            let entry = recovery::entry_of(name);
            let value = text::decimal_value(name.take(20));
            if name == "checkpoint"@ || name == "store.lock"@ {
                entry == Ok::<Entry, Seq<char>>(Entry::Kept)
            } else if name == "checkpoint.tmp"@ || is_numbered(name, '.', 't', 'm', 'p') {
                entry == Ok::<Entry, Seq<char>>(Entry::Temporary)
            } else if !is_numbered(name, '.', 'l', 'o', 'g') {
                entry == Err::<Entry, Seq<char>>("unexpected store entry: "@ + name)
            } else if value > 0xffff_ffff_ffff_ffff {
                entry == Err::<Entry, Seq<char>>("invalid segment filename"@)
            } else {
                entry == Ok::<Entry, Seq<char>>(Entry::Segment { base: value as u64 })
            }
        }),
{
    lemma_numbered(name);
}

/// A store has 1 to 64 segments, the first of which has the base 0.
pub proof fn segments_are_counted(bases: Seq<u64>)
    ensures
        recovery::bases_refusal(bases) == if 1 <= bases.len() <= 64 && bases[0] == 0 {
            None
        } else {
            Some("missing first segment or too many segments"@)
        },
        recovery::sorted(bases) <==> forall|i: int, j: int|
            0 <= i < j < bases.len() ==> bases[i] <= bases[j],
{
}

/// Whether recovery has gone on from `r` to `s` by the one segment `base`, whose
/// file has `length` bytes and was scanned up to `p`.
pub open spec fn has_one_more(
    r: RecoveryView,
    s: RecoveryView,
    base: u64,
    p: Progress,
    length: nat,
) -> bool {
    &&& s.segments.len() == r.segments.len() + 1
    &&& s.segments.drop_last() == r.segments
    &&& s.segments.last().base == base
    &&& s.segments.last().end == p.next
    &&& s.segments.last().byte_end == p.position as u64
    &&& s.segments.last().index == p.index
    &&& s.next == p.next
    &&& s.protected == p.protected
    &&& s.length == length as u64
    &&& s.limit == r.limit
    &&& s.bases == r.bases
    &&& s.checkpoint == r.checkpoint
}

/// Segments follow each other without a gap, each file has a whole header of its
/// own base and at most as many bytes as the limit says, and only the last one may
/// be without records. What the file shows is added, and nothing else changes.
pub proof fn segments_are_taken_in_order(r: RecoveryView, file: Seq<u8>)
    requires
        r.segments.len() < r.bases.len(),
    ensures
        ({
            let base = r.bases[r.segments.len() as int];
            let last = r.segments.len() + 1 == r.bases.len();
            let after = recovery::scanned_file(r, file);
            let start = recovery::scan_start(r.checkpoint, base, r.protected);
            let scan = recovery::scanned(file, base, r.checkpoint, last, start);
            let head = crate::format::decoded_segment(file.take(32));
            &&& recovery::wanted(r) == if base == r.next {
                Ok::<Option<u64>, Seq<char>>(Some(base))
            } else {
                Err::<Option<u64>, Seq<char>>(
                    "segment gap or duplicate at "@ + text::decimal(base as nat) + ", expected "@
                        + text::decimal(r.next as nat),
                )
            }
            &&& base != r.next ==> after == Err::<RecoveryView, Seq<char>>(
                recovery::wanted(r)->Err_0,
            )
            &&& base == r.next && !(32 <= file.len() <= r.limit) ==> after == Err::<
                RecoveryView,
                Seq<char>,
            >("segment length invalid"@)
            &&& base == r.next && 32 <= file.len() <= r.limit && head is None ==> after == Err::<
                RecoveryView,
                Seq<char>,
            >("invalid segment header"@)
            &&& base == r.next && 32 <= file.len() <= r.limit && head is Some && head != Some(base)
                ==> after == Err::<RecoveryView, Seq<char>>("segment header base mismatch"@)
            &&& base == r.next && 32 <= file.len() <= r.limit && head == Some(base) ==> match scan {
                Err(message) => after == Err::<RecoveryView, Seq<char>>(message),
                Ok(p) => {
                    let empty = !last && p.position == 32;
                    &&& empty ==> after == Err::<RecoveryView, Seq<char>>(
                        "empty predecessor segment"@,
                    )
                    &&& !empty ==> after is Ok && has_one_more(
                        r,
                        after->Ok_0,
                        base,
                        p,
                        file.len(),
                    )
                },
            }
        }),
{
    if let Ok(s) = recovery::scanned_file(r, file) {
        assert(s.segments.drop_last() =~= r.segments);
    }
}

/// Recovery begins at offset 0 without a segment, and wants no more files once it
/// has one for each base.
pub proof fn scans_begin_and_end(
    limit: u64,
    checkpoint: Checkpoint,
    bases: Seq<u64>,
    r: RecoveryView,
)
    ensures
        ({
            let first = recovery::unscanned(limit, checkpoint, bases);
            &&& first.segments.len() == 0
            &&& first.next == 0
            &&& !first.protected
            &&& first.limit == limit
            &&& first.checkpoint == checkpoint
            &&& first.bases == bases
        }),
        r.segments.len() >= r.bases.len() ==> recovery::wanted(r) == Ok::<Option<u64>, Seq<char>>(
            None,
        ),
{
}

/// Whether the checkpoint stands at that place of the segment `base`, in front of
/// the record `next`.
pub open spec fn meets(checkpoint: Checkpoint, base: u64, position: int, next: int) -> bool {
    checkpoint.base == base && checkpoint.byte_end == position && checkpoint.end == next
}

/// A scan begins behind the header, and goes on record by record. It ends where
/// the file does, or, behind the checkpoint of the last segment alone, at an
/// unfinished record. It may not pass the checkpoint by.
pub proof fn scan_goes_record_by_record(
    file: Seq<u8>,
    base: u64,
    checkpoint: Checkpoint,
    last: bool,
    p: Progress,
    met: bool,
)
    ensures
        ({
            let start = recovery::scan_start(checkpoint, base, met);
            &&& start.position == 32
            &&& start.next == base
            &&& start.index == Seq::<(u64, u64)>::empty()
            &&& start.protected == (met || meets(checkpoint, base, 32, base as int))
        }),
        ({
            let end = recovery::scanned(file, base, checkpoint, last, p);
            if p.position >= file.len() {
                end == Ok::<Progress, Seq<char>>(p)
            } else {
                match records::found(file, p.position, file.len() as int, p.next) {
                    Err(message) => end == Err::<Progress, Seq<char>>(message),
                    Ok(None) => if last && base == checkpoint.base && checkpoint.byte_end
                        <= p.position {
                        end == Ok::<Progress, Seq<char>>(p)
                    } else {
                        end == Err::<Progress, Seq<char>>("incomplete protected or sealed record"@)
                    },
                    Ok(Some(payload)) => if p.next == 0xffff_ffff_ffff_ffff {
                        end == Err::<Progress, Seq<char>>("offset overflow"@)
                    } else {
                        let q = recovery::stepped(checkpoint, base, p, payload.len());
                        &&& q.position == p.position + 24 + payload.len()
                        &&& q.next == p.next + 1
                        &&& q.protected == (p.protected || meets(
                            checkpoint,
                            base,
                            q.position,
                            q.next as int,
                        ))
                        &&& q.index == if (p.next - base) % 64 == 0 {
                            p.index.push((p.next, p.position as u64))
                        } else {
                            p.index
                        }
                        &&& if base == checkpoint.base && q.position > checkpoint.byte_end
                            && !q.protected {
                            end == Err::<Progress, Seq<char>>(
                                "checkpoint is not a record boundary"@,
                            )
                        } else {
                            end == recovery::scanned(file, base, checkpoint, last, q)
                        }
                    },
                }
            }
        }),
{
}

/// Whether `s` is what the scanned files of `r` come to: they are as they were, the
/// last one is cut where it is longer than its records, and the checkpoint moves
/// to the end of the log, with the next generation, where it is not there.
pub open spec fn is_settled(r: RecoveryView, s: SettledView) -> bool {
    let last = r.segments[r.segments.len() - 1];
    let behind = !meets(r.checkpoint, last.base, last.byte_end as int, last.end as int);
    &&& s.segments == r.segments
    &&& s.limit == r.limit
    &&& s.checkpoint == r.checkpoint
    &&& s.length == r.length
    &&& s.cut() == if r.length > last.byte_end {
        Some(last.byte_end)
    } else {
        None
    }
    &&& s.outdated() == behind
    &&& match recovery::completed(s) {
        Err(message) => behind && r.checkpoint.generation == 0xffff_ffff_ffff_ffff && message
            == "generation overflow"@,
        Ok(store) => {
            &&& behind ==> r.checkpoint.generation < 0xffff_ffff_ffff_ffff
            &&& store.segments == r.segments
            &&& store.limit == r.limit
            &&& !store.failed
            &&& meets(store.checkpoint, last.base, last.byte_end as int, last.end as int)
            &&& store.checkpoint.generation - r.checkpoint.generation == if behind {
                1int
            } else {
                0
            }
        },
    }
}

/// Once all files are scanned, the checkpoint must have been met, in the last
/// segment or at the end of the one before a last one without records. The file is
/// cut where it is longer than its records, and the checkpoint moves to the end of
/// the log where it is not there.
pub proof fn scans_are_settled(r: RecoveryView)
    requires
        r.segments.len() > 0,
    ensures
        ({
            let n = r.segments.len() as int;
            let last = r.segments[n - 1];
            let there = r.checkpoint.base == last.base || (n >= 2 && r.checkpoint.base == r.bases[n
                - 2] && last.byte_end == 32 && r.checkpoint.end == last.base);
            let settled = recovery::settlement(r);
            if !r.protected {
                settled == Err::<SettledView, Seq<char>>("checkpoint does not match history"@)
            } else if !there {
                settled == Err::<SettledView, Seq<char>>("unexpected successor after checkpoint"@)
            } else {
                settled matches Ok(s) && is_settled(r, s)
            }
        }),
{
}

} // verus!
