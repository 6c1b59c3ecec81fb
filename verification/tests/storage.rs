use kubelog::format::{encode_record, segment_header, Checkpoint};
use kubelog::storage::appending::Action;
use kubelog::storage::paging::ReadRequest;
use kubelog::storage::recovery::{classify, Entry};
use kubelog::storage::{check_limit, invalid, name, temporary_name, Invalid, Page, Store};
use std::collections::BTreeMap;

const FIRST: &str = "00000000000000000000.log";

/// A directory in memory.
struct Disk {
    files: BTreeMap<String, Vec<u8>>,
}

/// How far an append gets before the power fails.
#[derive(Clone, Copy)]
enum Power {
    Stays,
    FailsAfter(usize),
}

impl Disk {
    fn init(limit: u64) -> Result<(Disk, Store), Invalid> {
        let new = Store::init_with_limit(limit)?;
        let mut files = BTreeMap::new();
        files.insert("store.lock".to_string(), vec![]);
        files.insert(new.name, new.header);
        files.insert("checkpoint".to_string(), new.checkpoint.encode().to_vec());
        Ok((Disk { files }, new.store))
    }

    fn open(&mut self, limit: u64) -> Result<Store, Invalid> {
        check_limit(limit)?;
        let checkpoint = match self.files.get("checkpoint") {
            Some(bytes) => bytes.clone(),
            None => return Err(invalid("no checkpoint".to_string())),
        };
        let mut listing = Store::open_with_limit(limit, &checkpoint)?;
        let mut temporary = vec![];
        for file in self.files.keys().rev() {
            if listing.entry(file)? == Entry::Temporary {
                temporary.push(file.clone());
            }
        }
        let mut recovery = listing.close()?;
        while let Some(base) = recovery.wanted()? {
            let file = &self.files[&name(base)];
            recovery.check_length(file.len() as u64)?;
            recovery.scan(file)?;
        }
        let settled = recovery.settle()?;
        if let Some(length) = settled.cut() {
            self.files
                .get_mut(&name(settled.base()))
                .unwrap()
                .truncate(length as usize);
        }
        let outdated = settled.outdated();
        let store = settled.complete()?;
        for file in temporary {
            self.files.remove(&file);
        }
        if outdated {
            let bytes = store.checkpoint().encode().to_vec();
            self.files.insert("checkpoint".to_string(), bytes);
        }
        Ok(store)
    }

    fn perform(&mut self, action: &Action) {
        match action {
            Action::CreateSegment { name, header, .. } => {
                self.files.insert(name.clone(), header.clone());
            }
            Action::WriteRecord {
                base,
                position,
                record,
            } => {
                let file = self.files.get_mut(&name(*base)).unwrap();
                let at = *position as usize;
                if file.len() < at + record.len() {
                    file.resize(at + record.len(), 0);
                }
                file[at..at + record.len()].copy_from_slice(record);
            }
            Action::SaveCheckpoint { checkpoint } => {
                self.files
                    .insert("checkpoint".to_string(), checkpoint.encode().to_vec());
            }
            Action::Finished { .. } => unreachable!(),
        }
    }

    /// Appends a record, or stops after some actions.
    fn append_until(
        &mut self,
        store: &mut Store,
        payload: &[u8],
        power: Power,
    ) -> Result<Option<u64>, Invalid> {
        let mut appending = store.append(payload)?;
        let mut done = 0;
        loop {
            let action = appending.action(store);
            if let Action::Finished { offset } = action {
                return Ok(Some(offset));
            }
            if let Power::FailsAfter(actions) = power {
                if done == actions {
                    return Ok(None);
                }
            }
            self.perform(&action);
            done += 1;
            store.advance(&mut appending)?;
        }
    }

    fn append(&mut self, store: &mut Store, payload: &[u8]) -> Result<u64, Invalid> {
        Ok(self
            .append_until(store, payload, Power::Stays)?
            .unwrap())
    }

    fn bytes(&self, request: ReadRequest) -> Vec<u8> {
        let at = request.position as usize;
        self.files[&name(request.base)][at..at + request.length].to_vec()
    }

    fn read_page(
        &self,
        store: &Store,
        offset: u64,
        records: u32,
        bytes: u32,
    ) -> Result<Page, Invalid> {
        let mut read = store.read_page(offset, records, bytes)?;
        while let Some(request) = read.request(store) {
            read.supply(store, &self.bytes(request))?;
        }
        Ok(read.page())
    }

    fn read(&self, store: &Store, offset: u64) -> Result<Option<Vec<u8>>, Invalid> {
        let mut read = store.read(offset)?;
        while let Some(request) = read.request(store) {
            read.supply(store, &self.bytes(request))?;
        }
        Ok(read.payload())
    }
}

const LIMIT: u64 = 64 * 1024 * 1024;

fn message<T>(result: Result<T, Invalid>) -> String {
    match result {
        Ok(_) => panic!("an error was expected"),
        Err(err) => err.message,
    }
}

#[test]
fn acknowledged_records_survive_reopen() {
    let (mut disk, mut store) = Disk::init(LIMIT).unwrap();
    assert_eq!(disk.append(&mut store, b"first").unwrap(), 0);
    assert_eq!(disk.append(&mut store, b"").unwrap(), 1);
    assert_eq!(disk.read(&store, 0).unwrap(), Some(b"first".to_vec()));
    let store = disk.open(LIMIT).unwrap();
    assert_eq!(store.end(), 2);
    assert_eq!(disk.read(&store, 1).unwrap(), Some(vec![]));
    assert_eq!(disk.read(&store, 2).unwrap(), None);
}

#[test]
fn unacknowledged_complete_suffix_is_preserved_and_incomplete_tail_is_removed() {
    let (mut disk, mut store) = Disk::init(LIMIT).unwrap();
    disk.append(&mut store, b"safe").unwrap();
    let mut tail = encode_record(1, b"complete").unwrap();
    tail.extend(&encode_record(2, b"partial").unwrap()[..25]);
    disk.files.get_mut(FIRST).unwrap().extend(&tail);
    let store = disk.open(LIMIT).unwrap();
    assert_eq!(store.end(), 2);
    assert_eq!(disk.read(&store, 1).unwrap(), Some(b"complete".to_vec()));
    assert_eq!(disk.files[FIRST].len(), 32 + 28 + 32);
    assert_eq!(
        Checkpoint::decode(&disk.files["checkpoint"]).unwrap(),
        Checkpoint {
            generation: 2,
            end: 2,
            base: 0,
            byte_end: 92
        }
    );
}

#[test]
fn damaged_protected_record_fails_closed() {
    let (mut disk, mut store) = Disk::init(LIMIT).unwrap();
    disk.append(&mut store, b"safe").unwrap();
    disk.files.get_mut(FIRST).unwrap()[56] = b'X';
    assert!(disk.open(LIMIT).is_err());
}

#[test]
fn full_invalid_suffix_and_missing_checkpoint_fail_closed() {
    let (mut disk, mut store) = Disk::init(LIMIT).unwrap();
    disk.append(&mut store, b"protected").unwrap();
    let mut damaged = encode_record(1, b"suffix").unwrap();
    *damaged.last_mut().unwrap() ^= 1;
    disk.files.get_mut(FIRST).unwrap().extend(&damaged);
    assert!(disk.open(LIMIT).is_err());
    disk.files.remove("checkpoint").unwrap();
    assert!(disk.open(LIMIT).is_err());
}

#[test]
fn rotation_survives_restart_and_reads_across_segments() {
    let (mut disk, mut store) = Disk::init(100).unwrap();
    for i in 0..5 {
        assert_eq!(
            disk.append(&mut store, format!("message-{i}").as_bytes())
                .unwrap(),
            i
        );
    }
    assert_eq!(store.segment_count(), 3);
    let store = disk.open(100).unwrap();
    assert_eq!(store.end(), 5);
    assert_eq!(disk.read(&store, 4).unwrap(), Some(b"message-4".to_vec()));
    let page = disk.read_page(&store, 1, 5, 200).unwrap();
    assert_eq!(page.end, 5);
    assert_eq!(page.next, 5);
    assert_eq!(page.records.len(), 4);
}

#[test]
fn protected_predecessor_cannot_be_damaged() {
    let (mut disk, mut store) = Disk::init(100).unwrap();
    for _ in 0..3 {
        disk.append(&mut store, b"123456789").unwrap();
    }
    disk.files.get_mut(FIRST).unwrap()[56] = b'!';
    assert!(disk.open(100).is_err());
}

#[test]
fn empty_successor_after_crash_finishes_rotation() {
    let (mut disk, mut store) = Disk::init(100).unwrap();
    disk.append(&mut store, b"one").unwrap();
    disk.files.insert(
        "00000000000000000001.log".to_string(),
        segment_header(1).to_vec(),
    );
    let mut store = disk.open(100).unwrap();
    assert_eq!(store.segment_count(), 2);
    assert_eq!(disk.append(&mut store, b"two").unwrap(), 1);
    assert_eq!(disk.open(100).unwrap().end(), 2);
}

#[test]
fn wherever_an_append_stops_nothing_is_lost() {
    for (before, actions) in [(0usize, 2usize), (1, 2), (2, 4)] {
        for stop in 0..=actions {
            let (mut disk, mut store) = Disk::init(100).unwrap();
            for _ in 0..before {
                disk.append(&mut store, b"123456789").unwrap();
            }
            disk.append_until(&mut store, b"987654321", Power::FailsAfter(stop))
                .unwrap();
            let store = disk.open(100).unwrap();
            for i in 0..before as u64 {
                assert_eq!(
                    disk.read(&store, i).unwrap(),
                    Some(b"123456789".to_vec())
                );
            }
            let kept = stop + 1 >= actions;
            assert_eq!(store.end(), before as u64 + kept as u64);
            if kept {
                assert_eq!(
                    disk.read(&store, before as u64).unwrap(),
                    Some(b"987654321".to_vec())
                );
            }
        }
    }
}

#[test]
fn records_behind_a_checkpoint_at_the_header_are_kept() {
    let (mut disk, _) = Disk::init(LIMIT).unwrap();
    let file = disk.files.get_mut(FIRST).unwrap();
    file.extend(encode_record(0, b"a").unwrap());
    file.extend(encode_record(1, b"b").unwrap());
    file.extend(&encode_record(2, b"torn").unwrap()[..20]);
    let store = disk.open(LIMIT).unwrap();
    assert_eq!(store.end(), 2);
    assert_eq!(disk.read(&store, 0).unwrap(), Some(b"a".to_vec()));
    assert_eq!(disk.read(&store, 1).unwrap(), Some(b"b".to_vec()));
    assert_eq!(disk.files[FIRST].len(), 32 + 25 + 25);
    assert_eq!(
        store.checkpoint(),
        Checkpoint {
            generation: 1,
            end: 2,
            base: 0,
            byte_end: 82
        }
    );
}

#[test]
fn the_first_record_of_a_new_segment_is_kept() {
    let (mut disk, mut store) = Disk::init(100).unwrap();
    for _ in 0..2 {
        disk.append(&mut store, b"123456789").unwrap();
    }
    disk.append_until(&mut store, b"987654321", Power::FailsAfter(3))
        .unwrap();
    assert_eq!(store.checkpoint().byte_end, 32);
    let mut store = disk.open(100).unwrap();
    assert_eq!((store.end(), store.segment_count()), (3, 2));
    assert_eq!(disk.read(&store, 2).unwrap(), Some(b"987654321".to_vec()));
    assert_eq!(disk.append(&mut store, b"").unwrap(), 3);
    assert_eq!(disk.open(100).unwrap().end(), 4);
}

#[test]
fn a_checkpoint_at_the_header_of_an_earlier_segment_is_refused() {
    let (mut disk, mut store) = Disk::init(100).unwrap();
    let first = store.checkpoint();
    for _ in 0..3 {
        disk.append(&mut store, b"123456789").unwrap();
    }
    disk.files
        .insert("checkpoint".to_string(), first.encode().to_vec());
    assert_eq!(
        message(disk.open(100)),
        "unexpected successor after checkpoint"
    );
}

#[test]
fn any_damaged_byte_is_refused() {
    let (mut disk, mut store) = Disk::init(100).unwrap();
    for _ in 0..3 {
        disk.append(&mut store, b"123456789").unwrap();
    }
    let files = disk.files.clone();
    for (name, file) in &files {
        for at in 0..file.len() {
            let damaged = disk.files.get_mut(name).unwrap();
            damaged[at] ^= 0x10;
            assert!(disk.open(100).is_err());
            disk.files = files.clone();
        }
    }
}

#[test]
fn a_damaged_byte_is_not_read() {
    let (mut disk, mut store) = Disk::init(LIMIT).unwrap();
    for payload in ["one", "two", "three"] {
        disk.append(&mut store, payload.as_bytes()).unwrap();
    }
    let whole = disk.files[FIRST].clone();
    for at in 32 + 27..32 + 54 {
        disk.files.get_mut(FIRST).unwrap()[at] ^= 1;
        let page = disk.read_page(&store, 0, 1, 1000).unwrap();
        assert_eq!(page.records, [encode_record(0, b"one").unwrap()]);
        assert!(disk.read_page(&store, 0, 3, 1000).is_err());
        disk.files.insert(FIRST.to_string(), whole.clone());
    }
}

#[test]
fn pages_one_after_the_other_cover_the_log() {
    let (mut disk, mut store) = Disk::init(100).unwrap();
    let mut every = vec![];
    for i in 0..9u64 {
        let payload = vec![i as u8; 5 * (i as usize % 3)];
        disk.append(&mut store, &payload).unwrap();
        every.push(encode_record(i, &payload).unwrap());
    }
    for (records, bytes) in [(1, 34), (2, 34), (4, 100), (1024, 4096)] {
        let mut offset = 0;
        let mut seen = vec![];
        while offset < store.end() {
            let page = disk.read_page(&store, offset, records, bytes).unwrap();
            assert!(page.next > offset);
            offset = page.next;
            seen.extend(page.records);
        }
        assert_eq!(seen, every);
    }
}

#[test]
fn a_torn_record_is_cut_off() {
    let record = encode_record(1, b"torn").unwrap();
    for written in 1..record.len() {
        let (mut disk, mut store) = Disk::init(LIMIT).unwrap();
        disk.append(&mut store, b"kept").unwrap();
        let whole = disk.files[FIRST].clone();
        disk.files
            .get_mut(FIRST)
            .unwrap()
            .extend(&record[..written]);
        let store = disk.open(LIMIT).unwrap();
        assert_eq!(store.end(), 1);
        assert_eq!(disk.files[FIRST], whole);
    }
}

#[test]
fn many_records_are_found_through_the_index() {
    let (mut disk, mut store) = Disk::init(LIMIT).unwrap();
    for i in 0..200u64 {
        assert_eq!(disk.append(&mut store, &i.to_le_bytes()).unwrap(), i);
    }
    let reopened = disk.open(LIMIT).unwrap();
    for i in [0, 1, 63, 64, 65, 127, 128, 199] {
        let payload = Some(u64::to_le_bytes(i).to_vec());
        assert_eq!(disk.read(&store, i).unwrap(), payload);
        assert_eq!(disk.read(&reopened, i).unwrap(), payload);
    }
    let request = reopened.read_page(130, 1, 100).unwrap().request(&reopened);
    assert_eq!(
        request,
        Some(ReadRequest {
            base: 0,
            position: 32 + 128 * 32,
            length: 24
        })
    );
}

#[test]
fn a_page_ends_where_its_limits_end() {
    let (mut disk, mut store) = Disk::init(LIMIT).unwrap();
    for payload in ["one", "two", "three"] {
        disk.append(&mut store, payload.as_bytes()).unwrap();
    }
    let page = disk.read_page(&store, 0, 2, 1000).unwrap();
    assert_eq!((page.end, page.next, page.records.len()), (3, 2, 2));
    assert_eq!(page.records[1], encode_record(1, b"two").unwrap());
    let page = disk.read_page(&store, 0, 10, 54).unwrap();
    assert_eq!((page.end, page.next, page.records.len()), (3, 2, 2));
    let page = disk.read_page(&store, 0, 10, 53).unwrap();
    assert_eq!((page.end, page.next, page.records.len()), (3, 1, 1));
    assert_eq!(
        message(disk.read_page(&store, 2, 10, 28)),
        "buffer too small: requires 29 bytes"
    );
    let page = disk.read_page(&store, 3, 10, 1).unwrap();
    assert_eq!((page.end, page.next, page.records.len()), (3, 3, 0));
}

#[test]
fn faulty_reads_have_their_messages() {
    let (mut disk, mut store) = Disk::init(LIMIT).unwrap();
    disk.append(&mut store, b"record").unwrap();
    assert_eq!(message(disk.read(&store, 2)), "offset out of range");
    for (records, bytes) in [(0, 1), (1025, 1), (1, 0), (1, 4 * 1024 * 1024 + 1)] {
        assert_eq!(
            message(disk.read_page(&store, 0, records, bytes)),
            "invalid read limits"
        );
    }
    disk.files.get_mut(FIRST).unwrap()[56] ^= 1;
    assert_eq!(
        message(disk.read(&store, 0)),
        "checksum mismatch at offset 0"
    );
    disk.files.get_mut(FIRST).unwrap()[32] = 0;
    assert_eq!(
        message(disk.read(&store, 0)),
        "invalid record header at byte 32"
    );
    store.abandon();
    assert_eq!(message(disk.read(&store, 0)), "store failed");
    assert_eq!(
        message(disk.append(&mut store, b"more")),
        "store failed; reopen after recovery"
    );
}

#[test]
fn damage_to_a_record_that_is_read_has_its_message() {
    let (mut disk, mut store) = Disk::init(LIMIT).unwrap();
    disk.append(&mut store, b"record").unwrap();
    let whole = disk.files[FIRST].clone();
    disk.files.get_mut(FIRST).unwrap()[40..44].copy_from_slice(&0x10_0001u32.to_le_bytes());
    assert_eq!(message(disk.read(&store, 0)), "oversized record at byte 32");
    disk.files.insert(FIRST.to_string(), whole.clone());
    disk.files.get_mut(FIRST).unwrap()[40] = 7;
    assert_eq!(message(disk.read(&store, 0)), "incomplete protected record");
    disk.files.insert(FIRST.to_string(), whole);
    disk.files.get_mut(FIRST).unwrap()[44] = 1;
    assert_eq!(
        message(disk.read(&store, 0)),
        "unexpected record offset, expected 0"
    );
}

#[test]
fn faulty_appends_have_their_messages() {
    let (mut disk, mut store) = Disk::init(60).unwrap();
    assert_eq!(
        message(disk.append(&mut store, &[0; 5])),
        "record exceeds segment limit"
    );
    assert_eq!(
        message(disk.append(&mut store, &vec![0; 1024 * 1024 + 1])),
        "payload too large"
    );
    for i in 0..64 {
        assert_eq!(disk.append(&mut store, &[0; 4]).unwrap(), i);
    }
    assert_eq!(store.segment_count(), 64);
    assert_eq!(
        message(disk.append(&mut store, b"")),
        "segment capacity reached"
    );
    assert_eq!(disk.read(&store, 63).unwrap(), Some(vec![0; 4]));
    assert_eq!(disk.open(60).unwrap().end(), 64);
}

#[test]
fn the_last_generation_and_the_last_offset_are_the_end() {
    let (mut disk, _) = Disk::init(LIMIT).unwrap();
    let mut checkpoint = Checkpoint::decode(&disk.files["checkpoint"]).unwrap();
    checkpoint.generation = u64::MAX;
    disk.files
        .insert("checkpoint".to_string(), checkpoint.encode().to_vec());
    let mut store = disk.open(LIMIT).unwrap();
    assert_eq!(
        message(disk.append(&mut store, b"one too many")),
        "generation overflow"
    );
    assert_eq!(
        message(disk.append(&mut store, b"")),
        "store failed; reopen after recovery"
    );

    let (mut disk, mut store) = Disk::init(100).unwrap();
    disk.append(&mut store, b"one").unwrap();
    let mut checkpoint = store.checkpoint();
    checkpoint.generation = u64::MAX;
    disk.files
        .insert("checkpoint".to_string(), checkpoint.encode().to_vec());
    disk.files
        .insert(name(1), segment_header(1).to_vec());
    assert_eq!(message(disk.open(100)), "generation overflow");
}

#[test]
fn segment_limits_are_checked() {
    assert_eq!(message(Disk::init(55)), "invalid segment limit");
    assert_eq!(message(Disk::init(LIMIT + 1)), "invalid segment limit");
    let (mut disk, mut store) = Disk::init(56).unwrap();
    assert_eq!(disk.append(&mut store, b"").unwrap(), 0);
    assert_eq!(message(disk.open(55)), "invalid segment limit");
    let bytes = disk.files["checkpoint"].clone();
    assert_eq!(
        message(Store::open_with_limit(0, &bytes)),
        "invalid segment limit"
    );
    assert!(Store::open(&bytes).is_ok());
    assert!(Store::init().is_ok());
}

#[test]
fn faulty_directories_have_their_messages() {
    let (mut disk, mut store) = Disk::init(100).unwrap();
    for _ in 0..3 {
        disk.append(&mut store, b"123456789").unwrap();
    }
    let files = disk.files.clone();

    disk.files.insert("notes.txt".to_string(), vec![]);
    assert_eq!(
        message(disk.open(100)),
        "unexpected store entry: notes.txt"
    );

    disk.files = files.clone();
    disk.files
        .insert("99999999999999999999.log".to_string(), vec![]);
    assert_eq!(message(disk.open(100)), "invalid segment filename");

    disk.files = files.clone();
    disk.files.remove(FIRST);
    assert_eq!(
        message(disk.open(100)),
        "missing first segment or too many segments"
    );

    disk.files = files.clone();
    let moved = disk.files.remove(&name(2)).unwrap();
    disk.files.insert(name(3), moved);
    assert_eq!(
        message(disk.open(100)),
        "segment gap or duplicate at 3, expected 2"
    );

    disk.files = files.clone();
    disk.files.insert(name(2), segment_header(3).to_vec());
    assert_eq!(message(disk.open(100)), "segment header base mismatch");

    disk.files = files.clone();
    disk.files.insert(name(2), vec![0; 31]);
    assert_eq!(message(disk.open(100)), "segment length invalid");
    disk.files.insert(name(2), vec![0; 32]);
    assert_eq!(message(disk.open(100)), "invalid segment header");

    disk.files = files.clone();
    disk.files.get_mut(FIRST).unwrap().truncate(97);
    assert_eq!(
        message(disk.open(100)),
        "incomplete protected or sealed record"
    );

    disk.files = files.clone();
    disk.files.get_mut(&name(2)).unwrap().truncate(32);
    assert_eq!(
        message(disk.open(100)),
        "checkpoint does not match history"
    );

    disk.files = files.clone();
    disk.files.insert("checkpoint".to_string(), vec![0; 48]);
    assert_eq!(message(disk.open(100)), "invalid checkpoint");
    let mut early = store.checkpoint();
    early.byte_end = 31;
    disk.files
        .insert("checkpoint".to_string(), early.encode().to_vec());
    assert_eq!(
        message(disk.open(100)),
        "checkpoint byte end before header"
    );
    let mut off = store.checkpoint();
    off.byte_end = 64;
    disk.files
        .insert("checkpoint".to_string(), off.encode().to_vec());
    assert_eq!(
        message(disk.open(100)),
        "checkpoint is not a record boundary"
    );
    let mut behind = store.checkpoint();
    behind.end = 2;
    behind.base = 0;
    behind.byte_end = 98;
    disk.files
        .insert("checkpoint".to_string(), behind.encode().to_vec());
    assert_eq!(
        message(disk.open(100)),
        "unexpected successor after checkpoint"
    );
}

#[test]
fn an_empty_segment_before_the_last_is_refused() {
    let (mut disk, mut store) = Disk::init(100).unwrap();
    disk.append(&mut store, b"one").unwrap();
    let (other, _) = Disk::init(100).unwrap();
    disk.files.insert(FIRST.to_string(), other.files[FIRST].clone());
    disk.files.insert(name(1), segment_header(1).to_vec());
    assert_eq!(message(disk.open(100)), "empty predecessor segment");
}

#[test]
fn temporaries_are_removed() {
    let (mut disk, mut store) = Disk::init(LIMIT).unwrap();
    disk.append(&mut store, b"kept").unwrap();
    let files = disk.files.clone();
    disk.files.insert(temporary_name(1), vec![1, 2, 3]);
    disk.files.insert("checkpoint.tmp".to_string(), vec![]);
    assert_eq!(disk.open(LIMIT).unwrap().end(), 1);
    assert_eq!(disk.files, files);
}

#[test]
fn names_and_entries() {
    assert_eq!(name(0), FIRST);
    assert_eq!(name(u64::MAX), "18446744073709551615.log");
    assert_eq!(temporary_name(42), "00000000000000000042.tmp");
    assert_eq!(classify("checkpoint").unwrap(), Entry::Kept);
    assert_eq!(classify("store.lock").unwrap(), Entry::Kept);
    assert_eq!(classify("checkpoint.tmp").unwrap(), Entry::Temporary);
    assert_eq!(
        classify("99999999999999999999.tmp").unwrap(),
        Entry::Temporary
    );
    assert_eq!(
        classify("00000000000000000042.log").unwrap(),
        Entry::Segment { base: 42 }
    );
    assert_eq!(
        message(classify("0000000000000000004x.log")),
        "unexpected store entry: 0000000000000000004x.log"
    );
    assert_eq!(
        message(classify("18446744073709551616.log")),
        "invalid segment filename"
    );
    assert_eq!(
        message(classify("+0000000000000000042.log")),
        "unexpected store entry: +0000000000000000042.log"
    );
}

#[test]
fn a_listing_sorts_the_bases() {
    let (disk, store) = Disk::init(100).unwrap();
    let mut listing = Store::open_with_limit(100, &store.checkpoint().encode()).unwrap();
    for base in [7, 0, 3] {
        assert_eq!(
            listing.entry(&name(base)).unwrap(),
            Entry::Segment { base }
        );
    }
    let mut recovery = listing.close().unwrap();
    assert_eq!(recovery.wanted().unwrap(), Some(0));
    recovery.scan(&disk.files[FIRST]).unwrap_err();
}
