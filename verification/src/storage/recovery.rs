//! Opening a store: what its files hold, and what has to be mended.
//!
//! [`Store::open_with_limit`] begins with the checkpoint file. The directory's
//! entries go to [`Listing::entry`], then the segment files, in order, to
//! [`Recovery::scan`]. [`Recovery::settle`] holds what they showed against the
//! checkpoint, and [`Settled::complete`] gives the store.

use super::records::record_at;
use super::{check_limit, invalid, refused, Invalid, Segment, Store};
use super::{SegmentView, StoreView, DEFAULT_SEGMENT_LIMIT, INDEX_STEP, MAX_SEGMENTS};
use crate::format::{decode_segment, Checkpoint, RECORD_HEADER, SEGMENT_HEADER};
use crate::text;
use vstd::prelude::*;
use vstd::slice::slice_subrange;
use vstd::string::*;

verus! {

/// What an entry of the directory is.
#[derive(Clone, Copy, Debug, PartialEq, Eq, Structural)]
pub enum Entry {
    /// The checkpoint or the lock.
    Kept,
    /// What an interrupted write left behind.
    Temporary,
    /// The file of the segment `base`.
    Segment { base: u64 },
}

/// Whether a file name consists of 20 digits and an extension.
pub open spec fn numbered(name: Seq<char>, extension: Seq<char>) -> bool {
    name.len() == 24 && text::all_digits(name.take(20)) && name.skip(20) == extension
}

/// What the directory entry of that name is, or why there should be none.
pub open spec fn entry_of(name: Seq<char>) -> Result<Entry, Seq<char>> {
    if name == "checkpoint"@ || name == "store.lock"@ {
        Ok(Entry::Kept)
    } else if name == "checkpoint.tmp"@ || numbered(name, ".tmp"@) {
        Ok(Entry::Temporary)
    } else if !numbered(name, ".log"@) {
        Err("unexpected store entry: "@ + name)
    } else if text::decimal_value(name.take(20)) > u64::MAX {
        Err("invalid segment filename"@)
    } else {
        Ok(Entry::Segment { base: text::decimal_value(name.take(20)) as u64 })
    }
}

/// The checkpoint to recover from, or why there is none.
pub open spec fn opened(limit: u64, bytes: Seq<u8>) -> Result<Checkpoint, Seq<char>> {
    if !super::valid_limit(limit) {
        Err("invalid segment limit"@)
    } else {
        match crate::format::decoded_checkpoint(bytes) {
            None => Err("invalid checkpoint"@),
            Some(checkpoint) => if checkpoint.byte_end < SEGMENT_HEADER {
                Err("checkpoint byte end before header"@)
            } else {
                Ok(checkpoint)
            },
        }
    }
}

/// Whether numbers stand in ascending order.
pub open spec fn sorted(s: Seq<u64>) -> bool {
    forall|i: int, j: int| 0 <= i <= j < s.len() ==> s[i] <= s[j]
}

/// Why a store cannot consist of the segments with those bases, if so.
pub open spec fn bases_refusal(bases: Seq<u64>) -> Option<Seq<char>> {
    if bases.len() == 0 || bases[0] != 0 || bases.len() > MAX_SEGMENTS {
        Some("missing first segment or too many segments"@)
    } else {
        None
    }
}

/// A directory whose entries are being listed.
pub struct Listing {
    segment_limit: u64,
    checkpoint: Checkpoint,
    bases: Vec<u64>,
}

#[verifier::ext_equal]
pub struct ListingView {
    pub limit: u64,
    pub checkpoint: Checkpoint,
    pub bases: Seq<u64>,
}

impl View for Listing {
    type V = ListingView;

    closed spec fn view(&self) -> ListingView {
        ListingView {
            limit: self.segment_limit,
            checkpoint: self.checkpoint,
            bases: self.bases@,
        }
    }
}

impl ListingView {
    pub open spec fn wf(self) -> bool {
        &&& super::valid_limit(self.limit)
        &&& SEGMENT_HEADER <= self.checkpoint.byte_end
        &&& sorted(self.bases)
    }
}

impl Store {
    /// Begins to open a store with the largest segments.
    pub fn open(checkpoint: &[u8]) -> (r: Result<Listing, Invalid>)
        ensures
            match opened(DEFAULT_SEGMENT_LIMIT, checkpoint@) {
                Ok(c) => r matches Ok(listing) && listing@.wf() && listing@ == (ListingView {
                    limit: DEFAULT_SEGMENT_LIMIT,
                    checkpoint: c,
                    bases: Seq::empty(),
                }),
                Err(message) => r matches Err(e) && e@ == message,
            },
    {
        Self::open_with_limit(DEFAULT_SEGMENT_LIMIT, checkpoint)
    }

    /// Begins to open a store whose segments have at most `segment_limit` bytes
    /// and whose checkpoint file holds `checkpoint`.
    pub fn open_with_limit(segment_limit: u64, checkpoint: &[u8]) -> (r: Result<Listing, Invalid>)
        ensures
            match opened(segment_limit, checkpoint@) {
                Ok(c) => r matches Ok(listing) && listing@.wf() && listing@ == (ListingView {
                    limit: segment_limit,
                    checkpoint: c,
                    bases: Seq::empty(),
                }),
                Err(message) => r matches Err(e) && e@ == message,
            },
    {
        match check_limit(segment_limit) {
            Ok(()) => {},
            Err(e) => {
                return Err(e);
            },
        }
        let checkpoint = match Checkpoint::decode(checkpoint) {
            Ok(checkpoint) => checkpoint,
            Err(message) => {
                return Err(invalid(message));
            },
        };
        if checkpoint.byte_end < SEGMENT_HEADER as u64 {
            return Err(refused("checkpoint byte end before header"));
        }
        Ok(Listing { segment_limit, checkpoint, bases: Vec::new() })
    }
}

/// Whether a file name consists of 20 digits and an extension of four
/// characters, and which number the digits spell if it fits.
fn numbered_name(name: &Vec<char>, extension: &str) -> (r: Option<Option<u64>>)
    requires
        extension@.len() == 4,
    ensures
        match r {
            None => !numbered(name@, extension@),
            Some(v) => numbered(name@, extension@) && v == (if text::decimal_value(name@.take(20))
                <= u64::MAX {
                Some(text::decimal_value(name@.take(20)) as u64)
            } else {
                None
            }),
        },
{
    if name.len() != 24 {
        return None;
    }
    let extension = text::chars_of(extension);
    if !text::matches_at(name, &extension, 20) {
        assert(name@.skip(20) =~= name@.subrange(20, 24));
        return None;
    }
    assert(name@.skip(20) =~= name@.subrange(20, 24));
    assert(name@.take(20) =~= name@.subrange(0, 20));
    let mut i: usize = 0;
    while i < 20
        invariant
            i <= 20,
            name@.len() == 24,
            forall|k: int| 0 <= k < i ==> text::is_digit(#[trigger] name@[k]),
        decreases 20 - i,
    {
        let c: char = name[i];
        if c < '0' || '9' < c {
            assert(!text::is_digit(name@.take(20)[i as int]));
            return None;
        }
        i += 1;
    }
    Some(text::digits_value(name, 0, 20, u64::MAX))
}

/// What the directory entry of that name is.
pub fn classify(file_name: &str) -> (r: Result<Entry, Invalid>)
    ensures
        match entry_of(file_name@) {
            Ok(entry) => r == Ok::<Entry, Invalid>(entry),
            Err(message) => r matches Err(e) && e@ == message,
        },
{
    if text::same_text(file_name, "checkpoint") || text::same_text(file_name, "store.lock") {
        return Ok(Entry::Kept);
    }
    proof {
        reveal_strlit(".tmp");
        reveal_strlit(".log");
    }
    let chars = text::chars_of(file_name);
    if text::same_text(file_name, "checkpoint.tmp") || numbered_name(&chars, ".tmp").is_some() {
        return Ok(Entry::Temporary);
    }
    match numbered_name(&chars, ".log") {
        None => {
            let mut message: String = "unexpected store entry: ".to_owned();
            message.append(file_name);
            Err(invalid(message))
        },
        Some(None) => Err(refused("invalid segment filename")),
        Some(Some(base)) => Ok(Entry::Segment { base }),
    }
}

impl Listing {
    /// Takes an entry of the directory.
    pub fn entry(&mut self, file_name: &str) -> (r: Result<Entry, Invalid>)
        requires
            old(self)@.wf(),
        ensures
            final(self)@.wf(),
            final(self)@.limit == old(self)@.limit,
            final(self)@.checkpoint == old(self)@.checkpoint,
            match entry_of(file_name@) {
                Ok(Entry::Segment { base }) => r == Ok::<Entry, Invalid>(Entry::Segment { base })
                    && final(self)@.bases.to_multiset() == old(
                    self,
                )@.bases.to_multiset().insert(base),
                Ok(entry) => r == Ok::<Entry, Invalid>(entry) && final(self)@ == old(self)@,
                Err(message) => r matches Err(e) && e@ == message && final(self)@ == old(self)@,
            },
    {
        let entry = match classify(file_name) {
            Ok(entry) => entry,
            Err(e) => {
                return Err(e);
            },
        };
        if let Entry::Segment { base } = entry {
            self.insert(base);
        }
        Ok(entry)
    }

    /// Adds a base where it keeps the bases in ascending order.
    fn insert(&mut self, base: u64)
        requires
            old(self)@.wf(),
        ensures
            final(self)@.wf(),
            final(self)@.limit == old(self)@.limit,
            final(self)@.checkpoint == old(self)@.checkpoint,
            final(self)@.bases.to_multiset() == old(self)@.bases.to_multiset().insert(base),
    {
        let mut at: usize = self.bases.len();
        while at > 0 && self.bases[at - 1] > base
            invariant
                at <= self.bases@.len(),
                self@ == old(self)@,
                sorted(self.bases@),
                forall|k: int| at <= k < self.bases@.len() ==> self.bases@[k] > base,
            decreases at,
        {
            at -= 1;
        }
        self.bases.insert(at, base);
        proof {
            let before = old(self)@.bases;
            let after = self.bases@;
            assert(after =~= before.insert(at as int, base));
            assert(after.remove(at as int) =~= before);
            assert(after[at as int] == base);
            after.to_multiset_ensures();
            assert(after.to_multiset() =~= before.to_multiset().insert(base));
            assert forall|i: int, j: int| 0 <= i <= j < after.len() implies after[i]
                <= after[j] by {
                let a = if i < at { i } else { i - 1 };
                let b = if j < at { j } else { j - 1 };
                if i != at && j != at {
                    assert(before[a] <= before[b]);
                } else if i == at && j > at {
                    assert(after[j] == before[j - 1]);
                } else if j == at && i < at {
                    assert(before[i] <= before[at - 1]);
                }
            }
        }
    }
}

/// A store whose segment files are being scanned.
pub struct Recovery {
    segment_limit: u64,
    checkpoint: Checkpoint,
    bases: Vec<u64>,
    segments: Vec<Segment>,
    next: u64,
    protected: bool,
    length: u64,
}

/// What the segment files scanned so far have shown: the segments, the offset
/// after their last record, whether the checkpoint was met, and how many bytes
/// the last file has.
#[verifier::ext_equal]
pub struct RecoveryView {
    pub limit: u64,
    pub checkpoint: Checkpoint,
    pub bases: Seq<u64>,
    pub segments: Seq<SegmentView>,
    pub next: u64,
    pub protected: bool,
    pub length: u64,
}

impl View for Recovery {
    type V = RecoveryView;

    closed spec fn view(&self) -> RecoveryView {
        RecoveryView {
            limit: self.segment_limit,
            checkpoint: self.checkpoint,
            bases: self.bases@,
            segments: super::segment_views(self.segments@),
            next: self.next,
            protected: self.protected,
            length: self.length,
        }
    }
}

/// Recovery before any segment file is scanned.
pub open spec fn unscanned(limit: u64, checkpoint: Checkpoint, bases: Seq<u64>) -> RecoveryView {
    RecoveryView {
        limit,
        checkpoint,
        bases,
        segments: Seq::empty(),
        next: 0,
        protected: false,
        length: 0,
    }
}

impl RecoveryView {
    pub open spec fn wf(self) -> bool {
        &&& super::valid_limit(self.limit)
        &&& 1 <= self.bases.len() <= MAX_SEGMENTS
        &&& self.segments.len() <= self.bases.len()
        &&& super::chained(self.segments, self.limit)
        &&& self.segments.len() < self.bases.len() && self.segments.len() > 0
            ==> self.segments.last().base < self.segments.last().end
        &&& self.next == if self.segments.len() == 0 {
            0
        } else {
            self.segments.last().end
        }
        &&& forall|i: int|
            0 <= i < self.segments.len() ==> (#[trigger] self.segments[i]).base == self.bases[i]
        &&& self.segments.len() > 0 ==> self.segments.last().byte_end <= self.length <= self.limit
    }
}

/// The scan of a segment file: the place and the offset of the next record, the
/// index so far, and whether the checkpoint was met.
#[verifier::ext_equal]
pub struct Progress {
    pub position: int,
    pub next: u64,
    pub index: Seq<(u64, u64)>,
    pub protected: bool,
}

/// Whether the scan of the segment `base` stands at the checkpoint.
pub open spec fn at_checkpoint(checkpoint: Checkpoint, base: u64, position: int, next: u64)
    -> bool {
    base == checkpoint.base && position == checkpoint.byte_end && next == checkpoint.end
}

/// The scan behind one more record, whose payload has `len` bytes.
pub open spec fn stepped(checkpoint: Checkpoint, base: u64, p: Progress, len: nat) -> Progress {
    let position = p.position + RECORD_HEADER + len;
    let next = (p.next + 1) as u64;
    Progress {
        position,
        next,
        index: if (p.next - base) % INDEX_STEP as int == 0 {
            p.index.push((p.next, p.position as u64))
        } else {
            p.index
        },
        protected: p.protected || at_checkpoint(checkpoint, base, position, next),
    }
}

/// The scan of the segment `base` as it begins, behind the segment's header. A
/// new segment's checkpoint stands there.
pub open spec fn scan_start(checkpoint: Checkpoint, base: u64, met: bool) -> Progress {
    Progress {
        position: SEGMENT_HEADER as int,
        next: base,
        index: Seq::empty(),
        protected: met || at_checkpoint(checkpoint, base, SEGMENT_HEADER as int, base),
    }
}

/// The end of the scan of the segment `base` whose file holds `file`, or why
/// the file does not belong to the store. An incomplete record is tolerated
/// behind the checkpoint of the last segment, and ends the scan.
pub open spec fn scanned(
    file: Seq<u8>,
    base: u64,
    checkpoint: Checkpoint,
    last: bool,
    p: Progress,
) -> Result<Progress, Seq<char>>
    decreases
            if p.position < file.len() {
                file.len() - p.position
            } else {
                0
            },
{
    if p.position >= file.len() {
        Ok(p)
    } else {
        match super::records::found(file, p.position, file.len() as int, p.next) {
            Err(message) => Err(message),
            Ok(None) => if !last || base != checkpoint.base || p.position < checkpoint.byte_end {
                Err("incomplete protected or sealed record"@)
            } else {
                Ok(p)
            },
            Ok(Some(payload)) => if p.next == u64::MAX {
                Err("offset overflow"@)
            } else {
                let q = stepped(checkpoint, base, p, payload.len());
                if base == checkpoint.base && q.position > checkpoint.byte_end && !q.protected {
                    Err("checkpoint is not a record boundary"@)
                } else {
                    scanned(file, base, checkpoint, last, q)
                }
            },
        }
    }
}

/// The base of the segment file to scan next, `None` when all are scanned, or
/// the error that it does not follow on.
pub open spec fn wanted(r: RecoveryView) -> Result<Option<u64>, Seq<char>> {
    if r.segments.len() >= r.bases.len() {
        Ok(None)
    } else {
        let base = r.bases[r.segments.len() as int];
        if base != r.next {
            Err(
                "segment gap or duplicate at "@ + text::decimal(base as nat) + ", expected "@
                    + text::decimal(r.next as nat),
            )
        } else {
            Ok(Some(base))
        }
    }
}

/// Recovery after the next segment file, which holds `file`, or why the file
/// does not belong to the store.
pub open spec fn scanned_file(r: RecoveryView, file: Seq<u8>) -> Result<RecoveryView, Seq<char>> {
    let base = r.bases[r.segments.len() as int];
    let last = r.segments.len() + 1 == r.bases.len();
    if wanted(r) is Err {
        Err(wanted(r)->Err_0)
    } else if file.len() < SEGMENT_HEADER || file.len() > r.limit {
        Err("segment length invalid"@)
    } else {
        match crate::format::decoded_segment(file.take(SEGMENT_HEADER as int)) {
            None => Err("invalid segment header"@),
            Some(found) => if found != base {
                Err("segment header base mismatch"@)
            } else {
                let start = scan_start(r.checkpoint, base, r.protected);
                match scanned(file, base, r.checkpoint, last, start) {
                    Err(message) => Err(message),
                    Ok(p) => if !last && p.position == SEGMENT_HEADER {
                        Err("empty predecessor segment"@)
                    } else {
                        Ok(
                            RecoveryView {
                                segments: r.segments.push(
                                    SegmentView {
                                        base,
                                        end: p.next,
                                        byte_end: p.position as u64,
                                        index: p.index,
                                    },
                                ),
                                next: p.next,
                                protected: p.protected,
                                length: file.len() as u64,
                                ..r
                            },
                        )
                    },
                }
            },
        }
    }
}

/// Where the scan of a segment file can stand.
pub open spec fn progress_wf(base: u64, len: int, p: Progress) -> bool {
    &&& base <= p.next
    &&& SEGMENT_HEADER + RECORD_HEADER * (p.next - base) <= p.position <= len
    &&& p.next == base ==> p.position == SEGMENT_HEADER
    &&& p.position == SEGMENT_HEADER ==> p.next == base
    &&& forall|i: int|
        0 <= i < p.index.len() ==> base <= (#[trigger] p.index[i]).0 < p.next && SEGMENT_HEADER
            <= p.index[i].1 < p.position
}

/// One more record brings the scan to where a scan can stand.
pub proof fn lemma_stepped(
    checkpoint: Checkpoint,
    base: u64,
    len: int,
    p: Progress,
    payload_len: nat,
)
    requires
        progress_wf(base, len, p),
        p.next < u64::MAX,
        p.position + RECORD_HEADER + payload_len <= len <= u64::MAX,
    ensures
        progress_wf(base, len, stepped(checkpoint, base, p, payload_len)),
{
    let q = stepped(checkpoint, base, p, payload_len);
    assert forall|i: int| 0 <= i < q.index.len() implies base <= (#[trigger] q.index[i]).0 < q.next
        && SEGMENT_HEADER <= q.index[i].1 < q.position by {
        if i < p.index.len() {
            assert(q.index[i] == p.index[i]);
        }
    }
}

/// A scan ends where a scan can stand.
pub proof fn lemma_scanned(
    file: Seq<u8>,
    base: u64,
    checkpoint: Checkpoint,
    last: bool,
    p: Progress,
)
    requires
        progress_wf(base, file.len() as int, p),
        file.len() <= u64::MAX,
    ensures
        scanned(file, base, checkpoint, last, p) matches Ok(q) ==> progress_wf(
            base,
            file.len() as int,
            q,
        ),
    decreases file.len() - p.position,
{
    if p.position < file.len() && p.next < u64::MAX {
        super::records::lemma_found_size(file, p.position, file.len() as int, p.next);
        if let Ok(Some(payload)) = super::records::found(
            file,
            p.position,
            file.len() as int,
            p.next,
        ) {
            let q = stepped(checkpoint, base, p, payload.len());
            lemma_stepped(checkpoint, base, file.len() as int, p, payload.len());
            lemma_scanned(file, base, checkpoint, last, q);
        }
    }
}

/// A segment file that belongs to the store leaves recovery well formed.
pub proof fn lemma_scanned_file(r: RecoveryView, file: Seq<u8>)
    requires
        r.wf(),
        r.segments.len() < r.bases.len(),
    ensures
        scanned_file(r, file) matches Ok(s) ==> s.wf() && s.segments.len() == r.segments.len() + 1,
{
    if let Ok(s) = scanned_file(r, file) {
        let n = r.segments.len() as int;
        let base = r.bases[n];
        let last = n + 1 == r.bases.len();
        let start = scan_start(r.checkpoint, base, r.protected);
        lemma_scanned(file, base, r.checkpoint, last, start);
        assert forall|i: int| 0 <= i < s.segments.len() implies (#[trigger] s.segments[i]).wf(
            s.limit,
        ) && s.segments[i].base == s.bases[i] by {
            if i < n {
                assert(s.segments[i] == r.segments[i]);
            }
        }
        assert forall|i: int, j: int| 0 <= i && j == i + 1 && j < s.segments.len() implies (
        #[trigger] s.segments[i]).end == (#[trigger] s.segments[j]).base && s.segments[i].base
            < s.segments[i].end by {
            assert(s.segments[i] == r.segments[i]);
            if j < n {
                assert(s.segments[j] == r.segments[j]);
            } else {
                assert(r.segments.last() == r.segments[i]);
            }
        }
    }
}

impl Listing {
    /// Ends the list of the directory's entries.
    pub fn close(self) -> (r: Result<Recovery, Invalid>)
        requires
            self@.wf(),
        ensures
            match bases_refusal(self@.bases) {
                None => r matches Ok(recovery) && recovery@.wf() && recovery@ == unscanned(
                    self@.limit,
                    self@.checkpoint,
                    self@.bases,
                ),
                Some(message) => r matches Err(e) && e@ == message,
            },
    {
        if self.bases.len() == 0 || self.bases[0] != 0 || self.bases.len() > MAX_SEGMENTS {
            return Err(refused("missing first segment or too many segments"));
        }
        let recovery = Recovery {
            segment_limit: self.segment_limit,
            checkpoint: self.checkpoint,
            bases: self.bases,
            segments: Vec::new(),
            next: 0,
            protected: false,
            length: 0,
        };
        assert(recovery@.segments =~= Seq::<SegmentView>::empty());
        Ok(recovery)
    }
}

impl Recovery {
    /// The base of the segment file to scan next, or `None` when all are
    /// scanned.
    pub fn wanted(&self) -> (r: Result<Option<u64>, Invalid>)
        ensures
            match wanted(self@) {
                Ok(base) => r == Ok::<Option<u64>, Invalid>(base),
                Err(message) => r matches Err(e) && e@ == message,
            },
    {
        if self.segments.len() >= self.bases.len() {
            return Ok(None);
        }
        let base: u64 = self.bases[self.segments.len()];
        if base != self.next {
            let mut message = text::with_number(
                "segment gap or duplicate at ",
                base,
                ", expected ",
            );
            text::push_decimal(&mut message, self.next);
            return Err(invalid(message));
        }
        Ok(Some(base))
    }

    /// Refuses a segment file that has too few or too many bytes.
    pub fn check_length(&self, length: u64) -> (r: Result<(), Invalid>)
        ensures
            match r {
                Ok(()) => SEGMENT_HEADER <= length <= self@.limit,
                Err(e) => !(SEGMENT_HEADER <= length <= self@.limit) && e@
                    == "segment length invalid"@,
            },
    {
        if length < SEGMENT_HEADER as u64 || length > self.segment_limit {
            return Err(refused("segment length invalid"));
        }
        Ok(())
    }

    /// Scans the next segment file, which holds `file`.
    pub fn scan(&mut self, file: &[u8]) -> (r: Result<(), Invalid>)
        requires
            old(self)@.wf(),
            old(self)@.segments.len() < old(self)@.bases.len(),
        ensures
            match scanned_file(old(self)@, file@) {
                Ok(recovery) => r is Ok && final(self)@ == recovery && recovery.wf(),
                Err(message) => r matches Err(e) && e@ == message && final(self)@ == old(self)@,
            },
    {
        proof {
            lemma_scanned_file(self@, file@);
        }
        let base: u64 = match self.wanted() {
            Ok(Some(base)) => base,
            Ok(None) => {
                assert(false);
                0
            },
            Err(e) => {
                return Err(e);
            },
        };
        let length: u64 = file.len() as u64;
        match self.check_length(length) {
            Ok(()) => {},
            Err(e) => {
                return Err(e);
            },
        }
        let head = slice_subrange(file, 0, SEGMENT_HEADER);
        assert(head@ =~= file@.take(SEGMENT_HEADER as int));
        match decode_segment(head) {
            Ok(found) => {
                if found != base {
                    return Err(refused("segment header base mismatch"));
                }
            },
            Err(message) => {
                return Err(invalid(message));
            },
        }
        let last: bool = self.segments.len() + 1 == self.bases.len();
        let (segment, protected) = match scan_records(
            file,
            base,
            self.checkpoint,
            last,
            self.protected,
        ) {
            Ok(found) => found,
            Err(e) => {
                return Err(e);
            },
        };
        if !last && segment.byte_end == SEGMENT_HEADER as u64 {
            return Err(refused("empty predecessor segment"));
        }
        self.next = segment.end;
        self.protected = protected;
        self.length = length;
        self.segments.push(segment);
        proof {
            let after = scanned_file(old(self)@, file@)->Ok_0;
            assert(self@.segments =~= after.segments);
            assert(self@ =~= after);
        }
        Ok(())
    }
}

/// Scans the records of the segment `base`, whose file holds `file`. Gives the
/// segment, and whether the checkpoint was met.
fn scan_records(
    file: &[u8],
    base: u64,
    checkpoint: Checkpoint,
    last: bool,
    met: bool,
) -> (r: Result<(Segment, bool), Invalid>)
    requires
        SEGMENT_HEADER <= file@.len() <= DEFAULT_SEGMENT_LIMIT,
    ensures
        match scanned(
            file@,
            base,
            checkpoint,
            last,
            scan_start(checkpoint, base, met),
        ) {
            Ok(p) => r matches Ok((segment, protected)) && segment@ == (SegmentView {
                base,
                end: p.next,
                byte_end: p.position as u64,
                index: p.index,
            }) && protected == p.protected && 0 <= p.position <= file@.len(),
            Err(message) => r matches Err(e) && e@ == message,
        },
{
    let length: u64 = file.len() as u64;
    let mut position: u64 = SEGMENT_HEADER as u64;
    let mut next: u64 = base;
    let mut index: Vec<(u64, u64)> = Vec::new();
    let mut protected: bool = met || (base == checkpoint.base && position == checkpoint.byte_end
        && next == checkpoint.end);
    let ghost start = scan_start(checkpoint, base, met);
    while position < length
        invariant
            length == file@.len() <= DEFAULT_SEGMENT_LIMIT,
            start == scan_start(checkpoint, base, met),
            ({
                let p = Progress { position: position as int, next, index: index@, protected };
                &&& progress_wf(base, length as int, p)
                &&& scanned(file@, base, checkpoint, last, start) == scanned(
                    file@,
                    base,
                    checkpoint,
                    last,
                    p,
                )
            }),
        decreases length - position,
    {
        let ghost p = Progress { position: position as int, next, index: index@, protected };
        proof {
            super::records::lemma_found_size(file@, position as int, length as int, next);
        }
        let size: usize = match record_at(file, position, length, next) {
            Ok(Some((_, size))) => size,
            Ok(None) => {
                if !last || base != checkpoint.base || position < checkpoint.byte_end {
                    return Err(refused("incomplete protected or sealed record"));
                }
                return Ok((Segment { base, end: next, byte_end: position, index }, protected));
            },
            Err(e) => {
                return Err(e);
            },
        };
        if next == u64::MAX {
            return Err(refused("offset overflow"));
        }
        proof {
            lemma_stepped(checkpoint, base, length as int, p, (size - RECORD_HEADER) as nat);
        }
        if (next - base) % INDEX_STEP == 0 {
            index.push((next, position));
        }
        next = next + 1;
        position = position + size as u64;
        if base == checkpoint.base && position == checkpoint.byte_end && next == checkpoint.end {
            protected = true;
        }
        assert(stepped(checkpoint, base, p, (size - RECORD_HEADER) as nat) =~= (Progress {
            position: position as int,
            next,
            index: index@,
            protected,
        }));
        if base == checkpoint.base && position > checkpoint.byte_end && !protected {
            return Err(refused("checkpoint is not a record boundary"));
        }
    }
    Ok((Segment { base, end: next, byte_end: position, index }, protected))
}

/// A store whose segment files agree with its checkpoint.
pub struct Settled {
    segment_limit: u64,
    checkpoint: Checkpoint,
    segments: Vec<Segment>,
    length: u64,
}

#[verifier::ext_equal]
pub struct SettledView {
    pub limit: u64,
    pub checkpoint: Checkpoint,
    pub segments: Seq<SegmentView>,
    pub length: u64,
}

impl View for Settled {
    type V = SettledView;

    closed spec fn view(&self) -> SettledView {
        SettledView {
            limit: self.segment_limit,
            checkpoint: self.checkpoint,
            segments: super::segment_views(self.segments@),
            length: self.length,
        }
    }
}

impl SettledView {
    pub open spec fn wf(self) -> bool {
        &&& super::valid_limit(self.limit)
        &&& 1 <= self.segments.len() <= MAX_SEGMENTS
        &&& super::chained(self.segments, self.limit)
        &&& self.segments.last().byte_end <= self.length
    }

    /// To how many bytes the last segment's file has to be cut, if it holds
    /// more than belongs to the log.
    pub open spec fn cut(self) -> Option<u64> {
        if self.length > self.segments.last().byte_end {
            Some(self.segments.last().byte_end)
        } else {
            None
        }
    }

    /// Whether the log ends elsewhere than the checkpoint says.
    pub open spec fn outdated(self) -> bool {
        let last = self.segments.last();
        last.end != self.checkpoint.end || last.base != self.checkpoint.base || last.byte_end
            != self.checkpoint.byte_end
    }
}

/// Recovery once all segment files are scanned, or why they do not agree with
/// the checkpoint. The checkpoint has to have been met, and no segment but a
/// new one without records may follow on its segment.
pub open spec fn settlement(r: RecoveryView) -> Result<SettledView, Seq<char>> {
    let n = r.segments.len() as int;
    let last = r.segments.last();
    if !r.protected {
        Err("checkpoint does not match history"@)
    } else if r.checkpoint.base != last.base && !(n >= 2 && r.checkpoint.base == r.bases[n - 2]
        && last.byte_end == SEGMENT_HEADER && r.checkpoint.end == last.base) {
        Err("unexpected successor after checkpoint"@)
    } else {
        Ok(
            SettledView {
                limit: r.limit,
                checkpoint: r.checkpoint,
                segments: r.segments,
                length: r.length,
            },
        )
    }
}

/// The store, with a checkpoint at its end, or why there can be none.
pub open spec fn completed(s: SettledView) -> Result<StoreView, Seq<char>> {
    let last = s.segments.last();
    if s.outdated() && s.checkpoint.generation == u64::MAX {
        Err("generation overflow"@)
    } else {
        Ok(
            StoreView {
                segments: s.segments,
                checkpoint: if s.outdated() {
                    Checkpoint {
                        generation: (s.checkpoint.generation + 1) as u64,
                        end: last.end,
                        base: last.base,
                        byte_end: last.byte_end,
                    }
                } else {
                    s.checkpoint
                },
                limit: s.limit,
                failed: false,
            },
        )
    }
}

impl Recovery {
    /// Holds what the segment files have shown against the checkpoint.
    pub fn settle(self) -> (r: Result<Settled, Invalid>)
        requires
            self@.wf(),
            self@.segments.len() == self@.bases.len(),
        ensures
            match settlement(self@) {
                Ok(settled) => r matches Ok(s) && s@ == settled && settled.wf(),
                Err(message) => r matches Err(e) && e@ == message,
            },
    {
        if !self.protected {
            return Err(refused("checkpoint does not match history"));
        }
        let n: usize = self.segments.len();
        let last = &self.segments[n - 1];
        assert(last@ == self@.segments.last());
        if self.checkpoint.base != last.base && !(n >= 2 && self.checkpoint.base == self.bases[n
            - 2] && last.byte_end == SEGMENT_HEADER as u64 && self.checkpoint.end == last.base) {
            return Err(refused("unexpected successor after checkpoint"));
        }
        Ok(
            Settled {
                segment_limit: self.segment_limit,
                checkpoint: self.checkpoint,
                segments: self.segments,
                length: self.length,
            },
        )
    }
}

impl Settled {
    /// The base of the last segment.
    pub fn base(&self) -> (base: u64)
        requires
            self@.wf(),
        ensures
            base == self@.segments.last().base,
    {
        self.segments[self.segments.len() - 1].base
    }

    /// To how many bytes the last segment's file has to be cut, if it has to.
    pub fn cut(&self) -> (cut: Option<u64>)
        requires
            self@.wf(),
        ensures
            cut == self@.cut(),
    {
        let byte_end: u64 = self.segments[self.segments.len() - 1].byte_end;
        if self.length > byte_end {
            Some(byte_end)
        } else {
            None
        }
    }

    /// Whether the checkpoint file has to be replaced.
    pub fn outdated(&self) -> (outdated: bool)
        requires
            self@.wf(),
        ensures
            outdated == self@.outdated(),
    {
        let last = &self.segments[self.segments.len() - 1];
        assert(last@ == self@.segments.last());
        last.end != self.checkpoint.end || last.base != self.checkpoint.base || last.byte_end
            != self.checkpoint.byte_end
    }

    /// The store that was opened. Its checkpoint has to be saved if the one on
    /// disk is outdated.
    pub fn complete(self) -> (r: Result<Store, Invalid>)
        requires
            self@.wf(),
        ensures
            match completed(self@) {
                Ok(store) => r matches Ok(s) && s@ == store && store.wf(),
                Err(message) => r matches Err(e) && e@ == message,
            },
    {
        let mut checkpoint = self.checkpoint;
        if self.outdated() {
            if checkpoint.generation == u64::MAX {
                return Err(refused("generation overflow"));
            }
            let last = &self.segments[self.segments.len() - 1];
            assert(last@ == self@.segments.last());
            checkpoint = Checkpoint {
                generation: checkpoint.generation + 1,
                end: last.end,
                base: last.base,
                byte_end: last.byte_end,
            };
        }
        Ok(
            Store {
                segments: self.segments,
                checkpoint,
                segment_limit: self.segment_limit,
                failed: false,
            },
        )
    }
}

} // verus!
