use gresse::crdt::{CRDTWrapper, DeltaGroup, PersistentReplica, CRDT};
use gresse::journal::{
    frame_record, lock_name, mutation_log_name, replacement_name, snapshot_name, split_log,
    DiskJournal, JournalError, JournalFiles, LogRecord, Recovery, SnapshotRecord,
};
use gresse::orset::{ORSet, OrSetDelta, OrSetMutation, OrSetQuery, OrSetResponse};

type Fruits = ORSet<String>;

/// The files of a journal, held in memory.
struct Disk {
    journal: DiskJournal,
    snapshot: Option<(u64, Fruits, CRDTWrapper)>,
    log: Vec<u8>,
    deltas: Vec<DeltaGroup<OrSetDelta<String>>>,
}

impl Disk {
    fn new() -> Disk {
        Disk {
            journal: DiskJournal::new(None).expect("failed to create durability journal"),
            snapshot: None,
            log: Vec::new(),
            deltas: Vec::new(),
        }
    }

    fn append_snapshot(&mut self, state: &Fruits, wrapper: &CRDTWrapper) {
        let generation = self.journal.next_generation().expect("enabled journal");
        self.snapshot = Some((generation, state.clone(), wrapper.clone()));
        self.log.clear();
        self.journal.commit(generation);
    }

    fn append_line(&mut self, record_type: &str, payload: &str) {
        let generation = self.journal.record_generation().expect("enabled journal");
        let line = format!(
            "{{\"generation\":{generation},\"record_type\":\"{record_type}\",\"payload\":{payload}}}"
        );
        self.log.extend(frame_record(line.into_bytes()));
    }

    fn append_mutation(&mut self, element: &str) {
        self.append_line("mutation", &format!("{{\"Insert\":\"{element}\"}}"));
    }

    fn append_delta_group(&mut self, delta: DeltaGroup<OrSetDelta<String>>) {
        let place = self.deltas.len().to_string();
        self.deltas.push(delta);
        self.append_line("delta_group", &place);
    }

    fn decode(&self, line: &[u8]) -> Option<LogRecord<Fruits>> {
        let value = serde_json::from_slice::<serde_json::Value>(line).ok()?;
        let payload = value.get("payload")?;
        Some(LogRecord {
            generation: value.get("generation").and_then(|g| g.as_u64()).unwrap_or(0),
            record_type: value.get("record_type")?.as_str()?.to_string(),
            delta: payload
                .as_u64()
                .and_then(|place| self.deltas.get(place as usize).cloned()),
            mutation: payload
                .get("Insert")
                .and_then(|element| element.as_str())
                .map(|element| OrSetMutation::Insert(element.to_string())),
        })
    }

    fn recover(&mut self) -> Result<Option<PersistentReplica<Fruits>>, JournalError> {
        let (lines, torn) = split_log(&self.log);
        let files = JournalFiles {
            snapshot: self
                .snapshot
                .as_ref()
                .map(|(generation, state, wrapper)| SnapshotRecord {
                    generation: *generation,
                    record_type: "snapshot".to_string(),
                    replica: Some(PersistentReplica {
                        local_state: state.clone(),
                        crdt_wrapper: wrapper.clone(),
                    }),
                }),
            log_length: self.log.len() as u64,
            lines: lines.iter().map(|line| self.decode(line)).collect(),
            torn,
        };
        let Some(Recovery { replica, repair }) = self.journal.recover(files)? else {
            return Ok(None);
        };
        if let Some(generation) = repair {
            self.snapshot = Some((
                generation,
                replica.local_state.clone(),
                replica.crdt_wrapper.clone(),
            ));
            self.log.clear();
            self.journal.commit(generation);
        }
        Ok(Some(replica))
    }
}

fn apple() -> Fruits {
    let mut base = Fruits::new();
    base.set_pid(1);
    base.mutate(OrSetMutation::Insert("apple".into())).unwrap();
    base
}

fn elements(replica: &PersistentReplica<Fruits>) -> OrSetResponse<String> {
    replica
        .local_state
        .query(OrSetQuery::Elements)
        .expect("failed to query recovered ORSet")
}

#[test]
fn rebound_object_storage_state_persists_the_launch_pid() {
    let mut disk = Disk::new();
    let mut state = Fruits::new();
    state.set_pid(1);
    state
        .mutate(OrSetMutation::Insert("source".into()))
        .unwrap();
    let mut downloaded = PersistentReplica {
        local_state: state,
        crdt_wrapper: CRDTWrapper::new(1),
    };

    downloaded.rebind_own_pid(2);
    disk.append_snapshot(&downloaded.local_state, &downloaded.crdt_wrapper);

    let mut recovered = disk
        .recover()
        .expect("failed to recover rebound bootstrap state")
        .expect("rebound bootstrap state missing from journal");
    assert_eq!(recovered.crdt_wrapper.own_pid(), 2);
    recovered
        .local_state
        .mutate(OrSetMutation::Insert("local".into()))
        .unwrap();
    assert_eq!(
        recovered.local_state.get_version_vector().counter(&2),
        Some(0)
    );
}

#[test]
fn durability_journal_recovers_snapshot_and_delta_groups() {
    let mut disk = Disk::new();
    let base = apple();
    disk.append_snapshot(&base, &CRDTWrapper::new(1));

    let version_vector_before = base.get_version_vector().clone();
    let mut candidate = base.clone();
    candidate
        .mutate(OrSetMutation::Insert("banana".into()))
        .unwrap();
    let (delta_group, _, _) = candidate.get_delta(&version_vector_before);

    disk.append_delta_group(delta_group);

    let recovered = disk
        .recover()
        .expect("failed to recover durability journal")
        .expect("expected recovered replica");

    assert_eq!(
        elements(&recovered),
        OrSetResponse::Elements(vec!["apple".into(), "banana".into()])
    );
}

#[test]
fn durability_snapshot_compacts_prior_history() {
    let mut disk = Disk::new();
    let mut state = apple();
    disk.append_snapshot(&state, &CRDTWrapper::new(1));

    disk.append_mutation("banana");
    state
        .mutate(OrSetMutation::Insert("banana".into()))
        .unwrap();
    disk.append_snapshot(&state, &CRDTWrapper::new(1));

    assert!(disk.log.is_empty());
    let recovered = disk
        .recover()
        .expect("failed to recover compacted journal")
        .expect("expected recovered replica");
    assert_eq!(
        elements(&recovered),
        OrSetResponse::Elements(vec!["apple".into(), "banana".into()])
    );
}

#[test]
fn durability_recovery_ignores_a_log_left_by_an_interrupted_compaction() {
    let mut disk = Disk::new();
    let mut state = apple();
    disk.append_snapshot(&state, &CRDTWrapper::new(1));
    disk.append_mutation("banana");
    state
        .mutate(OrSetMutation::Insert("banana".into()))
        .unwrap();
    disk.append_snapshot(&state, &CRDTWrapper::new(1));

    // A crash after the atomic snapshot replacement but before truncating
    // the former log leaves generation 1 records behind. Recovery must
    // ignore them rather than replay them over generation 2.
    disk.log =
        b"{\"generation\":1,\"record_type\":\"mutation\",\"payload\":{\"Insert\":\"obsolete\"}}\n"
            .to_vec();

    let recovered = disk
        .recover()
        .expect("failed to recover compacted journal")
        .expect("expected recovered replica");
    assert_eq!(
        elements(&recovered),
        OrSetResponse::Elements(vec!["apple".into(), "banana".into()])
    );
}

#[test]
fn durability_journal_discards_an_incomplete_trailing_record() {
    let mut disk = Disk::new();
    disk.append_snapshot(&apple(), &CRDTWrapper::new(1));
    disk.log.extend(br#"{"record_type":"mutation","payload":"#);

    let recovered = disk
        .recover()
        .expect("incomplete trailing record should be ignored")
        .expect("expected recovered replica");
    assert_eq!(
        elements(&recovered),
        OrSetResponse::Elements(vec!["apple".into()])
    );
    assert!(disk.log.is_empty());
}

#[test]
fn durability_journal_repairs_a_corrupt_non_tail_suffix() {
    let mut disk = Disk::new();
    disk.append_snapshot(&apple(), &CRDTWrapper::new(1));

    // This models a torn write followed by a later writer appending its
    // own complete record.  The two fragments form one malformed physical
    // line, so merely discarding an unterminated final line is insufficient.
    disk.log
        .extend(br#"{"record_type":"mutation","payload":{"Insert":"#);
    disk.log
        .extend(br#"{"record_type":"mutation","payload":{"Insert":"banana"}}\n"#);

    let recovered = disk
        .recover()
        .expect("corrupt suffix should be repaired")
        .expect("expected recovered replica");
    assert_eq!(
        elements(&recovered),
        OrSetResponse::Elements(vec!["apple".into()])
    );
    assert!(disk.log.is_empty());

    disk.append_mutation("cherry");
    let recovered_after_append = disk
        .recover()
        .expect("repaired journal should remain recoverable")
        .expect("expected recovered replica");
    assert_eq!(
        elements(&recovered_after_append),
        OrSetResponse::Elements(vec!["apple".into(), "cherry".into()])
    );
}

#[test]
fn a_corrupt_line_discards_all_that_follows() {
    let mut disk = Disk::new();
    disk.append_snapshot(&apple(), &CRDTWrapper::new(1));
    disk.append_mutation("banana");
    disk.log.extend(b"\n \t\r\n");
    disk.log.extend(b"{\"broken\n");
    disk.append_mutation("cherry");

    let recovered = disk.recover().unwrap().unwrap();
    assert_eq!(
        elements(&recovered),
        OrSetResponse::Elements(vec!["apple".into(), "banana".into()])
    );
    assert_eq!(disk.snapshot.as_ref().unwrap().0, 2);
    assert_eq!(disk.journal.record_generation(), Some(2));

    // an unknown type and a payload of another type end a replay too
    disk.append_line("rumour", "0");
    disk.append_mutation("date");
    assert_eq!(
        elements(&disk.recover().unwrap().unwrap()),
        OrSetResponse::Elements(vec!["apple".into(), "banana".into()])
    );
    disk.append_line("mutation", "7");
    assert_eq!(disk.recover().is_ok(), true);
    assert_eq!(disk.snapshot.as_ref().unwrap().0, 4);
}

#[test]
fn a_log_without_a_snapshot_is_refused() {
    let mut disk = Disk::new();
    assert!(matches!(disk.recover(), Ok(None)));
    disk.append_mutation("banana");
    assert!(matches!(
        disk.recover(),
        Err(JournalError::MissingSnapshot)
    ));
}

#[test]
fn snapshot_files_hold_snapshots() {
    assert!(matches!(
        DiskJournal::new(Some((3, "mutation"))),
        Err(JournalError::UnknownRecordType(name)) if name == "mutation"
    ));
    let journal = DiskJournal::new(Some((3, "snapshot"))).unwrap();
    assert_eq!(journal.record_generation(), Some(3));
    assert_eq!(journal.next_generation(), Some(4));

    let files = |record_type: &str| JournalFiles::<Fruits> {
        snapshot: Some(SnapshotRecord {
            generation: 3,
            record_type: record_type.to_string(),
            replica: None,
        }),
        log_length: 0,
        lines: Vec::new(),
        torn: false,
    };
    assert!(matches!(
        journal.recover(files("delta_group")),
        Err(JournalError::UnknownRecordType(name)) if name == "delta_group"
    ));
    assert!(matches!(
        journal.recover(files("snapshot")),
        Err(JournalError::Undecodable)
    ));
}

#[test]
fn the_last_generation_can_be_read_but_not_repaired() {
    let journal = DiskJournal::new(Some((u64::MAX, "snapshot"))).unwrap();
    let files = |torn: bool| JournalFiles::<Fruits> {
        snapshot: Some(SnapshotRecord {
            generation: u64::MAX,
            record_type: "snapshot".to_string(),
            replica: Some(PersistentReplica {
                local_state: apple(),
                crdt_wrapper: CRDTWrapper::new(1),
            }),
        }),
        log_length: 0,
        lines: Vec::new(),
        torn,
    };
    let whole = journal.recover(files(false)).unwrap().expect("a replica");
    assert_eq!(whole.repair, None);
    assert!(matches!(
        journal.recover(files(true)),
        Err(JournalError::NoGenerationLeft)
    ));
}

#[test]
fn a_record_that_does_not_fit_is_reported() {
    let mut disk = Disk::new();
    disk.append_snapshot(&apple(), &CRDTWrapper::new(1));
    // the changes of replica 1 after the next one: one is missing in between
    let mut ahead = apple();
    ahead.mutate(OrSetMutation::Insert("b".into())).unwrap();
    let vector = ahead.get_version_vector().clone();
    ahead.mutate(OrSetMutation::Insert("c".into())).unwrap();
    disk.append_delta_group(ahead.get_delta(&vector).0);
    assert!(matches!(disk.recover(), Err(JournalError::Inapplicable)));
}

#[test]
fn a_journal_that_is_off_keeps_nothing() {
    let journal = DiskJournal::disabled();
    assert!(!journal.is_enabled());
    assert_eq!(journal.record_generation(), None);
    assert_eq!(journal.next_generation(), None);
    let recovered = journal.recover(JournalFiles::<Fruits> {
        snapshot: None,
        log_length: 9,
        lines: Vec::new(),
        torn: true,
    });
    assert!(matches!(recovered, Ok(None)));
}

#[test]
fn logs_are_cut_at_line_ends() {
    let (lines, torn) = split_log(&b"one\n\n two \n\x0c\r\nthr".to_vec());
    assert_eq!(lines, vec![b"one".to_vec(), b" two ".to_vec()]);
    assert!(torn);
    let (lines, torn) = split_log(&b"one\n".to_vec());
    assert_eq!(lines, vec![b"one".to_vec()]);
    assert!(!torn);
    assert_eq!(split_log(&Vec::new()), (Vec::new(), false));
}

#[test]
fn any_cut_of_a_log_recovers_its_first_records() {
    let mut whole = Disk::new();
    whole.append_snapshot(&apple(), &CRDTWrapper::new(1));
    for element in ["b", "c", "d"] {
        whole.append_mutation(element);
    }
    let log = whole.log.clone();
    let all = ["apple", "b", "c", "d"];
    for cut in 0..=log.len() {
        let mut disk = Disk::new();
        disk.append_snapshot(&apple(), &CRDTWrapper::new(1));
        disk.log = log[..cut].to_vec();
        let records = log[..cut].iter().filter(|byte| **byte == b'\n').count();
        let expected: Vec<String> = all[..=records].iter().map(|e| e.to_string()).collect();
        assert_eq!(
            elements(&disk.recover().unwrap().unwrap()),
            OrSetResponse::Elements(expected)
        );
    }
}

#[test]
fn files_of_a_journal_are_named_after_it() {
    assert_eq!(snapshot_name(Some("r.log")), "r.log.snapshot.json");
    assert_eq!(mutation_log_name(Some("r.log")), "r.log.mutations.jsonl");
    assert_eq!(lock_name(Some("r.log")), ".r.log.lock");
    assert_eq!(snapshot_name(None), "durability.snapshot.json");
    assert_eq!(mutation_log_name(None), "durability.mutations.jsonl");
    assert_eq!(lock_name(None), ".durability.lock");
    assert_eq!(replacement_name(Some("s.json"), 4021), ".s.json.4021.tmp");
    assert_eq!(
        replacement_name(None, 0),
        ".durability.snapshot.json.0.tmp"
    );
}
