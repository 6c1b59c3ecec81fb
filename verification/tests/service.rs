use kubelog::engine::{Description, Engine};
use kubelog::server::{
    append_reply, decode_header, describe_reply, frame, read_reply, request, Arrival, Request,
    Transfer,
};
use kubelog::storage::appending::Action;
use kubelog::storage::recovery::Entry;
use kubelog::storage::{name, Invalid, Page, Store};
use std::collections::BTreeMap;

/// An engine, its store and the store's files, in memory.
struct Service {
    engine: Engine,
    store: Store,
    files: BTreeMap<String, Vec<u8>>,
}

impl Service {
    fn init(limit: u64) -> Service {
        let new = Store::init_with_limit(limit).unwrap();
        let mut files = BTreeMap::new();
        files.insert(new.name, new.header);
        files.insert("checkpoint".to_string(), new.checkpoint.encode().to_vec());
        Service {
            engine: Engine::start(),
            store: new.store,
            files,
        }
    }

    fn restarted(self) -> Service {
        let files = self.files;
        let mut listing = Store::open(&files["checkpoint"]).unwrap();
        for file in files.keys() {
            assert!(listing.entry(file).unwrap() != Entry::Temporary);
        }
        let mut recovery = listing.close().unwrap();
        while let Some(base) = recovery.wanted().unwrap() {
            recovery.scan(&files[&name(base)]).unwrap();
        }
        let settled = recovery.settle().unwrap();
        assert!(settled.cut().is_none());
        assert!(!settled.outdated());
        Service {
            engine: Engine::start(),
            store: settled.complete().unwrap(),
            files,
        }
    }

    fn write(&mut self, payload: &[u8]) -> Result<u64, Invalid> {
        let mut appending = self.store.append(payload)?;
        loop {
            match appending.action(&self.store) {
                Action::CreateSegment { name, header, .. } => {
                    self.files.insert(name, header);
                }
                Action::WriteRecord {
                    base,
                    position,
                    record,
                } => {
                    let file = self.files.get_mut(&name(base)).unwrap();
                    assert_eq!(file.len() as u64, position);
                    file.extend(record);
                }
                Action::SaveCheckpoint { checkpoint } => {
                    self.files
                        .insert("checkpoint".to_string(), checkpoint.encode().to_vec());
                }
                Action::Finished { offset } => return Ok(offset),
            }
            self.store.advance(&mut appending)?;
        }
    }

    fn append(&mut self, payload: &[u8]) -> Result<u64, String> {
        self.engine.append(payload.len())?;
        let result = self.write(payload).map_err(|err| err.message);
        self.engine.complete(payload.len(), &result);
        Engine::outcome(Some(result))
    }

    fn page(&self, offset: u64, records: u32, bytes: u32) -> Result<Page, Invalid> {
        let mut read = self.store.read_page(offset, records, bytes)?;
        while let Some(wanted) = read.request(&self.store) {
            let at = wanted.position as usize;
            let file = &self.files[&name(wanted.base)];
            read.supply(&self.store, &file[at..at + wanted.length])?;
        }
        Ok(read.page())
    }

    fn read(&mut self, offset: u64, records: u32, bytes: u32) -> Result<Page, String> {
        self.engine.read()?;
        let result = self.page(offset, records, bytes).map_err(|err| err.message);
        if let Err(message) = &result {
            self.engine.read_failed(message);
        }
        result
    }

    fn describe(&self) -> Description {
        self.engine
            .describe(self.store.end(), self.store.segment_count())
    }

    /// Sends a frame in pieces of three bytes and answers it.
    fn exchange(&mut self, op: u8, id: u64, body: &[u8]) -> (u8, Vec<u8>) {
        let sent = frame(op, id, body);
        let mut pieces = sent.chunks(3).flatten().copied();
        let mut header = [0; 20];
        receive(&mut pieces, &mut header);
        let header = decode_header(&header).unwrap();
        let mut body = vec![0; header.length];
        receive(&mut pieces, &mut body);
        let reply = match request(&header, &body) {
            Request::Append { payload } => append_reply(id, &self.append(&payload)),
            Request::Read {
                offset,
                records,
                bytes,
            } => read_reply(id, &self.read(offset, records, bytes)),
            Request::Describe => describe_reply(id, &self.describe()),
            Request::Refused { reply } => reply,
        };
        assert_eq!(&reply[..4], b"KLGN");
        assert_eq!(u64::from_be_bytes(reply[8..16].try_into().unwrap()), id);
        let length = u32::from_be_bytes(reply[16..20].try_into().unwrap()) as usize;
        assert_eq!(reply.len(), 20 + length);
        (reply[6], reply[20..].to_vec())
    }
}

fn receive(bytes: &mut impl Iterator<Item = u8>, output: &mut [u8]) {
    let mut transfer = Transfer::start(output.len());
    while !transfer.finished() {
        let done = transfer.done();
        let end = output.len().min(done + 3);
        for slot in &mut output[done..end] {
            *slot = bytes.next().unwrap();
        }
        assert_eq!(transfer.received(end - done), Arrival::Bytes);
    }
}

#[test]
fn fragmented_append_read_describe_and_restart() {
    let mut service = Service::init(64 * 1024 * 1024);
    let (op, rejected) = service.exchange(1, 11, &[2, b'x']);
    assert_eq!(op, 255);
    assert_eq!(u16::from_be_bytes(rejected[..2].try_into().unwrap()), 3);
    assert_eq!(rejected[2], 0);
    let (op, response) = service.exchange(1, 12, &[1, b'h', b'i']);
    assert_eq!(op, 129);
    assert_eq!(response.len(), 16);
    assert_eq!(u64::from_be_bytes(response[..8].try_into().unwrap()), 0);
    let (op, response) = service.exchange(
        2,
        13,
        &[0, 0, 0, 0, 0, 0, 0, 0, 0, 0, 0, 1, 0, 0, 0, 100],
    );
    assert_eq!(op, 130);
    assert_eq!(u32::from_be_bytes(response[16..20].try_into().unwrap()), 1);
    assert_eq!(&response[44..], b"hi");
    let (op, too_small) = service.exchange(
        2,
        15,
        &[0, 0, 0, 0, 0, 0, 0, 0, 0, 0, 0, 1, 0, 0, 0, 1],
    );
    assert_eq!(op, 255);
    assert_eq!(u16::from_be_bytes(too_small[..2].try_into().unwrap()), 8);
    assert_eq!(u32::from_be_bytes(too_small[4..8].try_into().unwrap()), 26);
    let (op, response) = service.exchange(3, 14, &[]);
    assert_eq!(op, 131);
    assert_eq!(u64::from_be_bytes(response[16..24].try_into().unwrap()), 1);
    let mut service = service.restarted();
    let page = service.read(0, 1, 100).unwrap();
    assert_eq!(&page.records[0][24..], b"hi");
}

#[test]
fn capacity_rejection_keeps_previous_records_readable() {
    let mut service = Service::init(60);
    assert!(service
        .append(&[0; 5])
        .unwrap_err()
        .contains("segment limit"));
    assert_eq!(service.append(&[]).unwrap(), 0);
    assert_eq!(service.read(0, 1, 24).unwrap().records.len(), 1);
}

#[test]
fn damaged_read_marks_engine_unhealthy() {
    let mut service = Service::init(64 * 1024 * 1024);
    service.append(b"record").unwrap();
    service
        .files
        .get_mut("00000000000000000000.log")
        .unwrap()[56] = b'!';
    assert!(service.read(0, 1, 100).is_err());
    assert!(!service.describe().healthy);
    assert_eq!(service.append(b"more").unwrap_err(), "engine unavailable");
    assert_eq!(
        service.read(0, 1, 100).err(),
        Some("engine unavailable".to_string())
    );
}

#[test]
fn faulty_reads_keep_the_engine_healthy() {
    let mut service = Service::init(64 * 1024 * 1024);
    service.append(b"record").unwrap();
    assert!(service.read(0, 1, 29).is_err());
    assert!(service.read(2, 1, 100).is_err());
    assert!(service.read(0, 0, 100).is_err());
    assert!(service.describe().healthy);
    assert_eq!(service.read(0, 1, 30).unwrap().next, 1);
}

#[test]
fn producers_get_contiguous_offsets() {
    let mut service = Service::init(64 * 1024 * 1024);
    for i in 0..20u64 {
        assert_eq!(service.append(format!("record-{i}").as_bytes()), Ok(i));
    }
    for i in 0..20u64 {
        assert_eq!(
            service.read(i, 1, 100).unwrap().records[0][24..],
            format!("record-{i}").as_bytes()[..]
        );
    }
    assert_eq!(service.restarted().store.end(), 20);
}

#[test]
fn the_queue_is_bounded_and_counted() {
    let mut engine = Engine::start();
    assert_eq!(
        engine.append(1024 * 1024 + 1),
        Err("payload too large".to_string())
    );
    for _ in 0..16 {
        engine.append(1024 * 1024).unwrap();
    }
    assert_eq!(engine.append(1), Err("engine overloaded".to_string()));
    engine.append(0).unwrap();
    let state = engine.describe(5, 2);
    assert_eq!((state.end, state.segments), (5, 2));
    assert_eq!((state.queued, state.bytes), (17, 16 * 1024 * 1024));
    assert!(state.healthy);
    engine.complete(1024 * 1024, &Ok(0));
    engine.append(1).unwrap();
    assert_eq!(engine.undelivered(1, true), "engine overloaded");
    assert_eq!(engine.undelivered(0, false), "engine unavailable");
    let state = engine.describe(6, 2);
    assert_eq!((state.queued, state.bytes), (15, 15 * 1024 * 1024));

    let mut engine = Engine::start();
    for _ in 0..1024 {
        engine.append(0).unwrap();
    }
    assert_eq!(engine.append(0), Err("engine overloaded".to_string()));
}

#[test]
fn only_a_lack_of_room_leaves_the_engine_healthy() {
    for (message, healthy) in [
        ("offset capacity reached", true),
        ("segment capacity reached", true),
        ("record exceeds segment limit", true),
        ("no space left on device", false),
        ("store failed; reopen after recovery", false),
    ] {
        let mut engine = Engine::start();
        engine.append(1).unwrap();
        engine.complete(1, &Err(message.to_string()));
        assert_eq!(engine.describe(0, 1).healthy, healthy);
        assert_eq!(engine.append(1).is_ok(), healthy);
        assert_eq!(engine.read().is_ok(), healthy);
    }
}

#[test]
fn an_engine_that_stops_can_still_be_read() {
    let mut engine = Engine::start();
    engine.stop_admission();
    assert_eq!(engine.append(1), Err("engine unavailable".to_string()));
    assert!(engine.read().is_ok());
    assert!(!engine.describe(0, 1).healthy);
    let mut engine = Engine::start();
    engine.shutdown();
    assert_eq!(engine.append(1), Err("engine unavailable".to_string()));
    assert_eq!(
        Engine::outcome(None),
        Err("append outcome unknown; writer stopped".to_string())
    );
    assert_eq!(Engine::outcome(Some(Ok(3))), Ok(3));
}
