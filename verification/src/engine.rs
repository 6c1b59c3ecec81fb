//! Which requests the log takes on, and whether it is fit to.
//!
//! Appends wait in a queue for the one writer. The engine bounds the queue,
//! counts what waits in it, and remembers whether the store can still be
//! trusted.

use crate::checksum;
use crate::format::MAX_PAYLOAD;
use crate::storage::paging::PageReadView;
use crate::storage::{appending, paging, records, StoreView};
use crate::text;
use vstd::prelude::*;

verus! {

/// The most appends that may wait.
pub const QUEUE_ITEMS: usize = 1024;

/// The most bytes that the payloads of waiting appends may have.
pub const QUEUE_BYTES: usize = 16 * 1024 * 1024;

/// The state of the log as a client sees it.
pub struct Description {
    pub end: u64,
    pub segments: usize,
    pub queued: usize,
    pub bytes: usize,
    pub healthy: bool,
}

/// Whether the engine takes on appends, whether it is healthy, how many appends
/// wait, and how many bytes their payloads have.
pub struct Engine {
    accepting: bool,
    healthy: bool,
    count: usize,
    bytes: usize,
}

#[verifier::ext_equal]
pub struct EngineView {
    pub accepting: bool,
    pub healthy: bool,
    pub count: nat,
    pub bytes: nat,
}

impl View for Engine {
    type V = EngineView;

    closed spec fn view(&self) -> EngineView {
        EngineView {
            accepting: self.accepting,
            healthy: self.healthy,
            count: self.count as nat,
            bytes: self.bytes as nat,
        }
    }
}

impl EngineView {
    /// The queue is within its bounds.
    pub open spec fn wf(self) -> bool {
        self.count <= QUEUE_ITEMS && self.bytes <= QUEUE_BYTES
    }
}

/// Why an engine refuses an append whose payload has `size` bytes, if it does.
pub open spec fn admission_refusal(e: EngineView, size: nat) -> Option<Seq<char>> {
    if size > MAX_PAYLOAD {
        Some("payload too large"@)
    } else if !e.healthy || !e.accepting {
        Some("engine unavailable"@)
    } else if e.count == QUEUE_ITEMS || e.bytes + size > QUEUE_BYTES {
        Some("engine overloaded"@)
    } else {
        None
    }
}

/// An engine with one more append in its queue.
pub open spec fn queued(e: EngineView, size: nat) -> EngineView {
    EngineView { count: e.count + 1, bytes: e.bytes + size, ..e }
}

/// An engine with one append less in its queue.
pub open spec fn dequeued(e: EngineView, size: nat) -> EngineView {
    EngineView { count: (e.count - 1) as nat, bytes: (e.bytes - size) as nat, ..e }
}

/// An engine that is not healthy any more.
pub open spec fn sick(e: EngineView) -> EngineView {
    EngineView { healthy: false, accepting: false, ..e }
}

/// Whether an append that failed with this message leaves the store fit for
/// use: the record was refused before anything was written.
pub open spec fn harmless_append(message: Seq<char>) -> bool {
    text::contains_text(message, "capacity reached"@) || text::contains_text(
        message,
        "record exceeds segment limit"@,
    )
}

/// Whether a read that failed with this message leaves the store fit for use:
/// the request was at fault.
pub open spec fn harmless_read(message: Seq<char>) -> bool {
    text::begins_with(message, "buffer too small:"@) || message == "offset out of range"@ || message
        == "invalid read limits"@
}

/// An engine after the writer has finished with an append.
pub open spec fn finished(e: EngineView, size: nat, failure: Option<Seq<char>>) -> EngineView {
    match failure {
        Some(message) if !harmless_append(message) => sick(dequeued(e, size)),
        _ => dequeued(e, size),
    }
}

/// An engine after a read has failed.
pub open spec fn read_failed(e: EngineView, message: Seq<char>) -> EngineView {
    if harmless_read(message) {
        e
    } else {
        sick(e)
    }
}

/// The message of a failed append, if it failed.
pub open spec fn failure_of(result: Result<u64, String>) -> Option<Seq<char>> {
    match result {
        Ok(_) => None,
        Err(message) => Some(message@),
    }
}

impl Engine {
    /// An engine with an empty queue.
    pub fn start() -> (e: Engine)
        ensures
            e@ == (EngineView { accepting: true, healthy: true, count: 0, bytes: 0 }),
            e@.wf(),
    {
        Engine { accepting: true, healthy: true, count: 0, bytes: 0 }
    }

    /// Takes on an append whose payload has `size` bytes, or says why not.
    pub fn append(&mut self, size: usize) -> (r: Result<(), String>)
        requires
            old(self)@.wf(),
        ensures
            final(self)@.wf(),
            match admission_refusal(old(self)@, size as nat) {
                None => r is Ok && final(self)@ == queued(old(self)@, size as nat),
                Some(message) => r matches Err(m) && m@ == message && final(self)@ == old(self)@,
            },
    {
        if size > MAX_PAYLOAD {
            return Err("payload too large".to_owned());
        }
        if !self.healthy || !self.accepting {
            return Err("engine unavailable".to_owned());
        }
        if self.count == QUEUE_ITEMS || self.bytes + size > QUEUE_BYTES {
            return Err("engine overloaded".to_owned());
        }
        self.count = self.count + 1;
        self.bytes = self.bytes + size;
        Ok(())
    }

    /// Takes back an append that could not be handed to the writer, because the
    /// queue was full or the writer is gone, and says so.
    pub fn undelivered(&mut self, size: usize, full: bool) -> (message: String)
        requires
            old(self)@.wf(),
            old(self)@.count > 0,
            old(self)@.bytes >= size,
        ensures
            final(self)@ == dequeued(old(self)@, size as nat),
            final(self)@.wf(),
            message@ == if full {
                "engine overloaded"@
            } else {
                "engine unavailable"@
            },
    {
        self.count = self.count - 1;
        self.bytes = self.bytes - size;
        if full {
            "engine overloaded".to_owned()
        } else {
            "engine unavailable".to_owned()
        }
    }

    /// Takes note of what came of an append that the writer has finished with.
    pub fn complete(&mut self, size: usize, result: &Result<u64, String>)
        requires
            old(self)@.wf(),
            old(self)@.count > 0,
            old(self)@.bytes >= size,
        ensures
            final(self)@ == finished(old(self)@, size as nat, failure_of(*result)),
            final(self)@.wf(),
    {
        self.bytes = self.bytes - size;
        self.count = self.count - 1;
        match result {
            Ok(_) => {},
            Err(message) => {
                if !text::contains(message.as_str(), "capacity reached") && !text::contains(
                    message.as_str(),
                    "record exceeds segment limit",
                ) {
                    self.healthy = false;
                    self.accepting = false;
                }
            },
        }
    }

    /// What the client of an append learns: what the writer replied, or that
    /// there was no reply.
    pub fn outcome(reply: Option<Result<u64, String>>) -> (r: Result<u64, String>)
        ensures
            match reply {
                Some(result) => r == result,
                None => r matches Err(m) && m@ == "append outcome unknown; writer stopped"@,
            },
    {
        match reply {
            Some(result) => result,
            None => Err("append outcome unknown; writer stopped".to_owned()),
        }
    }

    /// Takes on a read, or says why not.
    pub fn read(&self) -> (r: Result<(), String>)
        ensures
            match r {
                Ok(()) => self@.healthy,
                Err(message) => !self@.healthy && message@ == "engine unavailable"@,
            },
    {
        if !self.healthy {
            return Err("engine unavailable".to_owned());
        }
        Ok(())
    }

    /// Takes note of a read that has failed.
    pub fn read_failed(&mut self, message: &str)
        ensures
            final(self)@ == read_failed(old(self)@, message@),
            old(self)@.wf() ==> final(self)@.wf(),
    {
        if !text::starts_with(message, "buffer too small:") && !text::same_text(
            message,
            "offset out of range",
        ) && !text::same_text(message, "invalid read limits") {
            self.healthy = false;
            self.accepting = false;
        }
    }

    /// The state of the log whose store ends at `end` and has that many
    /// segments.
    pub fn describe(&self, end: u64, segments: usize) -> (d: Description)
        ensures
            d.end == end,
            d.segments == segments,
            d.queued == self@.count,
            d.bytes == self@.bytes,
            d.healthy == (self@.healthy && self@.accepting),
    {
        Description {
            end,
            segments,
            queued: self.count,
            bytes: self.bytes,
            healthy: self.healthy && self.accepting,
        }
    }

    /// Takes on no more appends.
    pub fn stop_admission(&mut self)
        ensures
            final(self)@ == (EngineView { accepting: false, ..old(self)@ }),
    {
        self.accepting = false;
    }

    /// Takes on no more appends, because the writer is about to stop.
    pub fn shutdown(&mut self)
        ensures
            final(self)@ == (EngineView { accepting: false, ..old(self)@ }),
    {
        self.accepting = false;
    }
}

/// The sum of numbers.
pub open spec fn sum(sizes: Seq<nat>) -> nat
    decreases sizes.len(),
{
    if sizes.len() == 0 {
        0
    } else {
        sum(sizes.drop_last()) + sizes.last()
    }
}

/// Whether an engine counts exactly the appends whose payloads have these sizes.
pub open spec fn counts(e: EngineView, waiting: Seq<nat>) -> bool {
    e.count == waiting.len() && e.bytes == sum(waiting)
}

proof fn lemma_sum_remove(sizes: Seq<nat>, i: int)
    requires
        0 <= i < sizes.len(),
    ensures
        sum(sizes) == sum(sizes.remove(i)) + sizes[i],
    decreases sizes.len(),
{
    if i == sizes.len() - 1 {
        assert(sizes.remove(i) =~= sizes.drop_last());
    } else {
        lemma_sum_remove(sizes.drop_last(), i);
        assert(sizes.remove(i).drop_last() =~= sizes.drop_last().remove(i));
    }
}

/// An append that is taken on is counted among those that wait.
pub proof fn admission_is_counted(e: EngineView, waiting: Seq<nat>, size: nat)
    requires
        e.wf(),
        counts(e, waiting),
        admission_refusal(e, size) is None,
    ensures
        queued(e, size).wf(),
        counts(queued(e, size), waiting.push(size)),
{
    assert(waiting.push(size).drop_last() =~= waiting);
}

/// An append that waits can leave the queue, whether it succeeded, failed or was
/// never delivered, and the others are still counted.
pub proof fn departure_is_counted(
    e: EngineView,
    waiting: Seq<nat>,
    i: int,
    failure: Option<Seq<char>>,
)
    requires
        e.wf(),
        counts(e, waiting),
        0 <= i < waiting.len(),
    ensures
        e.count > 0,
        e.bytes >= waiting[i],
        counts(dequeued(e, waiting[i]), waiting.remove(i)),
        counts(finished(e, waiting[i], failure), waiting.remove(i)),
{
    lemma_sum_remove(waiting, i);
}

/// An engine that is not healthy stays so: it takes on no append, and nothing
/// that happens to it makes it healthy again.
pub proof fn sickness_is_final(
    e: EngineView,
    size: nat,
    failure: Option<Seq<char>>,
    message: Seq<char>,
)
    requires
        !e.healthy,
    ensures
        admission_refusal(e, size) is Some,
        !dequeued(e, size).healthy,
        !finished(e, size, failure).healthy,
        !read_failed(e, message).healthy,
{
}

/// What a store refuses for want of room leaves the engine as healthy as it was,
/// so that earlier records stay readable.
pub proof fn capacity_refusal_is_harmless(
    store: StoreView,
    e: EngineView,
    size: nat,
)
    requires
        !store.failed,
        size <= MAX_PAYLOAD,
        appending::append_refusal(store, size) is Some,
    ensures
        finished(e, size, appending::append_refusal(store, size)) == dequeued(
            e,
            size,
        ),
{
    let message = appending::append_refusal(store, size)->Some_0;
    reveal_strlit("offset capacity reached");
    reveal_strlit("segment capacity reached");
    reveal_strlit("record exceeds segment limit");
    reveal_strlit("capacity reached");
    if message == "offset capacity reached"@ {
        assert(message.subrange(7, 23) =~= "capacity reached"@);
        assert(text::stands_at(message, "capacity reached"@, 7));
    } else if message == "segment capacity reached"@ {
        assert(message.subrange(8, 24) =~= "capacity reached"@);
        assert(text::stands_at(message, "capacity reached"@, 8));
    } else {
        assert(message.subrange(0, 28) =~= message);
        assert(text::stands_at(message, "record exceeds segment limit"@, 0));
    }
}

/// A read that a store refuses leaves the engine as it was, unless the store
/// itself has failed.
pub proof fn refused_read_is_harmless(
    store: StoreView,
    e: EngineView,
    offset: u64,
    max_records: u32,
    max_bytes: u32,
)
    requires
        paging::read_refusal(store, offset, max_records, max_bytes) is Some,
    ensures
        ({
            let message = paging::read_refusal(store, offset, max_records, max_bytes)->Some_0;
            read_failed(e, message) == if store.failed {
                sick(e)
            } else {
                e
            }
        }),
{
    reveal_strlit("store failed");
    if store.failed {
        lemma_harmful("store failed"@);
    }
}

/// A read whose first record is larger than all the room leaves the engine as it
/// was.
pub proof fn small_room_is_harmless(e: EngineView, size: nat)
    ensures
        read_failed(e, "buffer too small: requires "@ + text::decimal(size) + " bytes"@) == e,
{
    let message = "buffer too small: requires "@ + text::decimal(size) + " bytes"@;
    reveal_strlit("buffer too small: requires ");
    reveal_strlit("buffer too small:");
    assert(message.subrange(0, 17) =~= "buffer too small:"@);
}

/// A text that begins with neither of the harmless beginnings is harmful.
proof fn lemma_harmful(message: Seq<char>)
    requires
        message.len() > 10,
        message[0] != 'b',
        message[0] == 'i' ==> message[2] != 'v' || message[10] != 'a',
        message[0] == 'o' ==> message[1] != 'f',
    ensures
        !harmless_read(message),
{
    reveal_strlit("buffer too small:");
    reveal_strlit("offset out of range");
    reveal_strlit("invalid read limits");
    if text::begins_with(message, "buffer too small:"@) {
        assert(message.subrange(0, 17)[0] == message[0]);
    }
}

/// A read that finds no record where there should be one, or another one, makes
/// the engine sick. Only a record that is larger than all the room does not.
pub proof fn damaged_read_is_harmful(
    store: StoreView,
    e: EngineView,
    r: PageReadView,
    bytes: Seq<u8>,
)
    requires
        r.at is Some,
        paging::supplied(store, r, bytes) is Err,
    ensures
        ({
            let p = r.at->Some_0;
            let message = paging::supplied(store, r, bytes)->Err_0;
            let oversized = p.size is Some && records::whole(bytes, p.current) is Ok && r.page.next
                <= p.current && r.max_bytes < bytes.len();
            ||| read_failed(e, message) == sick(e)
            ||| oversized && read_failed(e, message) == e
        }),
{
    let p = r.at->Some_0;
    let message = paging::supplied(store, r, bytes)->Err_0;
    reveal_strlit("invalid record header at byte ");
    reveal_strlit("oversized record at byte ");
    reveal_strlit("incomplete protected record");
    reveal_strlit("incomplete complete-length record");
    reveal_strlit("invalid record header or unsupported version");
    reveal_strlit("payload length exceeds limit");
    reveal_strlit("unexpected record offset, expected ");
    reveal_strlit("checksum mismatch at offset ");
    if p.size is Some && records::whole(bytes, p.current) is Ok && p.current >= r.page.next
        && paging::total(r.page.records) + bytes.len() > r.max_bytes {
        assert(r.page.records.len() == 0);
        small_room_is_harmless(e, bytes.len());
    } else {
        lemma_harmful(message);
    }
}

/// A read of a record of which one byte is damaged fails and makes the engine
/// sick, whatever the damage, unless it is in the record's length.
pub proof fn damaged_byte_is_harmful(
    store: StoreView,
    e: EngineView,
    r: PageReadView,
    payload: Seq<u8>,
    bytes: Seq<u8>,
    k: int,
)
    requires
        r.at matches Some(p) && p.size is Some && checksum::differ_at(
            crate::format::record_image(p.current, payload),
            bytes,
            k,
        ),
        payload.len() <= MAX_PAYLOAD,
        k < 8 || 12 <= k,
    ensures
        paging::supplied(store, r, bytes) matches Err(message) && read_failed(e, message) == sick(
            e,
        ),
{
    crate::format::damaged_byte_of_record_is_refused(r.at->Some_0.current, payload, bytes, k);
    damaged_read_is_harmful(store, e, r, bytes);
}

/// Which appends an engine takes on, in numbers: all of at most a mebibyte, while
/// it is healthy and accepts, fewer than 1024 wait, and the payloads that wait
/// have at most 16 mebibytes with the new one. Every other append is told why
/// not.
pub proof fn admission_is_by_numbers(e: EngineView, size: nat)
    requires
        e.wf(),
    ensures
        ({
            let large = size > 1024 * 1024;
            let open = e.healthy && e.accepting;
            let full = e.count >= 1024 || e.bytes + size > 16 * 1024 * 1024;
            &&& admission_refusal(e, size) is None <==> !large && open && !full
            &&& large ==> admission_refusal(e, size) == Some("payload too large"@)
            &&& !large && !open ==> admission_refusal(e, size) == Some("engine unavailable"@)
            &&& !large && open && full ==> admission_refusal(e, size) == Some(
                "engine overloaded"@,
            )
        }),
{
}

/// The queue is within its bounds with up to 1024 appends and 16 mebibytes.
pub proof fn bounds_are_numbers(e: EngineView)
    ensures
        e.wf() <==> e.count <= 1024 && e.bytes <= 16 * 1024 * 1024,
{
}

/// An append that comes and goes leaves nothing behind, and neither its coming nor
/// its going changes whether the engine is healthy or accepts, unless it failed.
pub proof fn coming_and_going_cancel_out(e: EngineView, size: nat)
    ensures
        queued(e, size).count == e.count + 1,
        queued(e, size).bytes == e.bytes + size,
        queued(e, size).healthy == e.healthy,
        queued(e, size).accepting == e.accepting,
        dequeued(queued(e, size), size) == e,
        finished(queued(e, size), size, None) == e,
{
}

/// An append has failed where its result is an error, with that error's message.
pub proof fn failure_is_the_error(result: Result<u64, String>)
    ensures
        failure_of(result) is Some <==> result is Err,
        result matches Err(message) ==> failure_of(result) == Some(message@),
{
}

/// What a failed append does to an engine: it leaves the queue, and the engine
/// stays as healthy as it was if and only if the message says that the capacity
/// was reached or that the record exceeds the segment limit.
pub proof fn failure_is_judged_by_its_message(e: EngineView, size: nat, message: Seq<char>)
    requires
        e.count > 0,
        e.bytes >= size,
    ensures
        ({
            let after = finished(e, size, Some(message));
            let room = text::contains_text(message, "capacity reached"@) || text::contains_text(
                message,
                "record exceeds segment limit"@,
            );
            &&& after.count == e.count - 1
            &&& after.bytes == e.bytes - size
            &&& after.healthy == (e.healthy && room)
            &&& after.accepting == (e.accepting && room)
        }),
{
}

/// What a failed read does to an engine: nothing if and only if the message says
/// that the room was too small, that the offset is out of range, or that the
/// limits are invalid. What waits is not touched.
pub proof fn failed_read_is_judged_by_its_message(e: EngineView, message: Seq<char>)
    ensures
        ({
            let after = read_failed(e, message);
            let fault = text::begins_with(message, "buffer too small:"@) || message
                == "offset out of range"@ || message == "invalid read limits"@;
            &&& after.count == e.count
            &&& after.bytes == e.bytes
            &&& after.healthy == (e.healthy && fault)
            &&& after.accepting == (e.accepting && fault)
        }),
{
}

/// An engine after appends with payloads of those sizes came one after the other,
/// if all of them were taken on.
pub open spec fn all_taken_on(e: EngineView, sizes: Seq<nat>) -> Option<EngineView>
    decreases sizes.len(),
{
    if sizes.len() == 0 {
        Some(e)
    } else {
        match all_taken_on(e, sizes.drop_last()) {
            Some(before) => if admission_refusal(before, sizes.last()) is None {
                Some(queued(before, sizes.last()))
            } else {
                None
            },
            None => None,
        }
    }
}

/// Any appends that come to an engine at the same time are all taken on, as long
/// as they are at most 1024, of at most a mebibyte each and 16 mebibytes in all.
pub proof fn appends_at_the_same_time_are_taken_on(sizes: Seq<nat>)
    requires
        sizes.len() <= 1024,
        sum(sizes) <= 16 * 1024 * 1024,
        forall|i: int| 0 <= i < sizes.len() ==> (#[trigger] sizes[i]) <= 1024 * 1024,
    ensures
        ({
            let e = EngineView { accepting: true, healthy: true, count: 0, bytes: 0 };
            all_taken_on(e, sizes) == Some(
                EngineView { count: sizes.len(), bytes: sum(sizes), ..e },
            )
        }),
    decreases sizes.len(),
{
    if sizes.len() > 0 {
        let before = sizes.drop_last();
        assert forall|i: int| 0 <= i < before.len() implies (#[trigger] before[i]) <= 1024
            * 1024 by {
            assert(before[i] == sizes[i]);
        }
        appends_at_the_same_time_are_taken_on(before);
        assert(sizes.last() == sizes[sizes.len() - 1]);
    }
}

} // verus!
