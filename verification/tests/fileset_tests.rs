use std::collections::BTreeMap;

use fileset::{
    CreateOperation, FileID, FileMetadata, FileSet, FileSetError, FileSetOperation, FileUpdater,
    IoError, MetadataTransaction, RemoveOperation, State, UpdateMetadata,
};

/// A content updater that succeeds at everything and keeps no state.
#[derive(Debug)]
struct NullUpdater;

impl FileUpdater for NullUpdater {
    type FileTransaction = Vec<u8>;

    fn create_file(&mut self, _filename: &Vec<String>) -> Result<(), IoError> {
        Ok(())
    }

    fn remove_file(&mut self, _filename: &Vec<String>) -> Result<(), IoError> {
        Ok(())
    }

    fn update_file(
        &mut self,
        _filename: &Vec<String>,
        _timestamp_lookup: &BTreeMap<u32, (u32, u32)>,
        _transaction: &mut Vec<u8>,
    ) -> Result<(), IoError> {
        Ok(())
    }

    fn move_file(&mut self, _old: &Vec<String>, _new: &Vec<String>) -> Result<(), IoError> {
        Ok(())
    }

    fn get_local_changes(
        &mut self,
        _filename: &Vec<String>,
    ) -> Result<(Vec<u8>, BTreeMap<u32, (u32, u32)>), IoError> {
        Ok((Vec::new(), BTreeMap::new()))
    }

    fn get_changes_since(
        &self,
        _filename: &Vec<String>,
        _last_timestamp: Option<(u32, u32)>,
    ) -> Vec<u8> {
        Vec::new()
    }
}

fn p(parts: &[&str]) -> Vec<String> {
    parts.iter().map(|s| s.to_string()).collect()
}

fn meta_of(fs: &FileSet<NullUpdater>, id: FileID) -> &FileMetadata {
    for entry in fs.get_all_files() {
        if entry.0 == id {
            return &entry.1;
        }
    }
    panic!("file not tracked");
}

#[test]
fn single_create() {
    let mut fs = FileSet::new(NullUpdater, 1);
    let op = fs.process_create(&p(&["a.txt"]));
    match op {
        FileSetOperation::Create(c) => {
            assert_eq!(c.state.time_stamp, 0);
            assert_eq!(c.state.site_id, 1);
            assert_eq!(c.id, (1, 0));
            assert_eq!(c.filename, p(&["a.txt"]));
        },
        _ => panic!("expected a create"),
    }
    assert_eq!(fs.get_all_files().len(), 1);
    let m = meta_of(&fs, (1, 0));
    assert_eq!(m.get_file_timestamp(), 0);
    assert_eq!(m.get_file_path(), &p(&["a.txt"]));
    assert_eq!(m.printed_filename, "a.txt".to_string());
    assert!(m.attributes.is_empty());
    assert_eq!(fs.last_timestamp, 1);
    assert_eq!(fs.last_id, 1);
}

#[test]
fn collision_rename_on_integrate() {
    let mut fs = FileSet::new(NullUpdater, 1);
    fs.process_create(&p(&["a.txt"]));
    let r = fs.integrate_remote(FileSetOperation::Create(CreateOperation {
        state: State { time_stamp: 5, site_id: 2 },
        id: (2, 7),
        filename: p(&["a.txt"]),
    }));
    assert!(r.is_ok());
    assert_eq!(fs.id_lookup.get_id_for(&p(&["a.txt"])), Some((1, 0)));
    assert_eq!(fs.id_lookup.get_id_for(&p(&["a.txt(site 2)"])), Some((2, 7)));
    let m = meta_of(&fs, (2, 7));
    assert_eq!(m.printed_filename, "a.txt(site 2)".to_string());
    assert_eq!(m.filename.0, 5);
    assert_eq!(m.filename.1, p(&["a.txt"]));
}

#[test]
fn lww_rename() {
    let mut fs = FileSet::new(NullUpdater, 1);
    fs.process_create(&p(&["b0.txt"]));
    let r = fs.integrate_remote(FileSetOperation::UpdateMetadata(UpdateMetadata {
        state: State { time_stamp: 10, site_id: 3 },
        id: (1, 0),
        data: MetadataTransaction::Filename(p(&["b.txt"])),
    }));
    assert!(r.is_ok());
    assert_eq!(meta_of(&fs, (1, 0)).filename, (10, p(&["b.txt"])));

    // stored timestamp 10 beats 9: dropped
    let r = fs.integrate_remote(FileSetOperation::UpdateMetadata(UpdateMetadata {
        state: State { time_stamp: 9, site_id: 2 },
        id: (1, 0),
        data: MetadataTransaction::Filename(p(&["c.txt"])),
    }));
    assert!(r.is_ok());
    assert_eq!(meta_of(&fs, (1, 0)).filename, (10, p(&["b.txt"])));
    assert_eq!(fs.id_lookup.get_id_for(&p(&["b.txt"])), Some((1, 0)));
    assert_eq!(fs.id_lookup.get_id_for(&p(&["c.txt"])), None);

    // timestamp 11 wins: applied, and the on-disk path moves
    let r = fs.integrate_remote(FileSetOperation::UpdateMetadata(UpdateMetadata {
        state: State { time_stamp: 11, site_id: 2 },
        id: (1, 0),
        data: MetadataTransaction::Filename(p(&["c.txt"])),
    }));
    assert!(r.is_ok());
    assert_eq!(meta_of(&fs, (1, 0)).filename, (11, p(&["c.txt"])));
    assert_eq!(fs.id_lookup.get_id_for(&p(&["b.txt"])), None);
    assert_eq!(fs.id_lookup.get_id_for(&p(&["c.txt"])), Some((1, 0)));
}

#[test]
fn lww_tie() {
    // canonical rule: a timestamp tie is broken against the stored stamp's
    // author, whatever this replica's own site number is
    let mut fs = FileSet::new(NullUpdater, 7);
    fs.process_create(&p(&["a.txt"]));
    let set = |ts: u32, site: u32, value: &str| {
        FileSetOperation::UpdateMetadata(UpdateMetadata {
            state: State { time_stamp: ts, site_id: site },
            id: (7, 0),
            data: MetadataTransaction::Custom("color".to_string(), value.to_string()),
        })
    };
    // stored (10, author 2); incoming (10, site 1): 2 > 1, dropped
    assert!(fs.integrate_remote(set(10, 2, "red")).is_ok());
    assert!(fs.integrate_remote(set(10, 1, "blue")).is_ok());
    assert_eq!(
        meta_of(&fs, (7, 0)).attributes,
        vec![("color".to_string(), (10, 2, "red".to_string()))]
    );

    // stored (10, author 1); incoming (10, site 2): 1 <= 2, applied
    let mut fs = FileSet::new(NullUpdater, 7);
    fs.process_create(&p(&["a.txt"]));
    let set = |ts: u32, site: u32, value: &str| {
        FileSetOperation::UpdateMetadata(UpdateMetadata {
            state: State { time_stamp: ts, site_id: site },
            id: (7, 0),
            data: MetadataTransaction::Custom("color".to_string(), value.to_string()),
        })
    };
    assert!(fs.integrate_remote(set(10, 1, "red")).is_ok());
    assert!(fs.integrate_remote(set(10, 2, "blue")).is_ok());
    assert_eq!(
        meta_of(&fs, (7, 0)).attributes,
        vec![("color".to_string(), (10, 2, "blue".to_string()))]
    );

    // interoperating rule: the same tie compared against the local site
    // (7 > 2) keeps the stored value instead
    let mut fs = FileSet::new(NullUpdater, 7);
    fs.tie_break_local = true;
    fs.process_create(&p(&["a.txt"]));
    let set = |ts: u32, site: u32, value: &str| {
        FileSetOperation::UpdateMetadata(UpdateMetadata {
            state: State { time_stamp: ts, site_id: site },
            id: (7, 0),
            data: MetadataTransaction::Custom("color".to_string(), value.to_string()),
        })
    };
    assert!(fs.integrate_remote(set(10, 1, "red")).is_ok());
    assert!(fs.integrate_remote(set(10, 2, "blue")).is_ok());
    assert_eq!(
        meta_of(&fs, (7, 0)).attributes,
        vec![("color".to_string(), (10, 1, "red".to_string()))]
    );
}

#[test]
fn folder_remove() {
    let mut fs = FileSet::new(NullUpdater, 1);
    fs.process_create(&p(&["f", "x"]));
    fs.process_create(&p(&["f", "y"]));
    fs.process_create(&p(&["g", "z"]));
    let ops = fs.process_remove_folder(&p(&["f"]));
    assert_eq!(ops.len(), 2);
    let mut removed: Vec<FileID> = Vec::new();
    for op in &ops {
        match op {
            FileSetOperation::Remove(r) => removed.push(r.id),
            _ => panic!("expected removes"),
        }
    }
    assert!(removed.contains(&(1, 0)));
    assert!(removed.contains(&(1, 1)));
    assert_eq!(fs.get_all_files().len(), 1);
    assert_eq!(fs.get_all_files()[0].0, (1, 2));
    assert_eq!(fs.id_lookup.get_id_for(&p(&["f", "x"])), None);
    assert_eq!(fs.id_lookup.get_id_for(&p(&["g", "z"])), Some((1, 2)));
}

#[test]
fn snapshot_round_trip() {
    let mut fs = FileSet::new(NullUpdater, 3);
    fs.process_create(&p(&["dir", "one.txt"]));
    fs.process_create(&p(&["two.txt"]));
    assert!(fs
        .integrate_remote(FileSetOperation::UpdateMetadata(UpdateMetadata {
            state: State { time_stamp: 4, site_id: 2 },
            id: (3, 0),
            data: MetadataTransaction::Custom("color".to_string(), "red".to_string()),
        }))
        .is_ok());
    assert!(fs
        .integrate_remote(FileSetOperation::UpdateMetadata(UpdateMetadata {
            state: State { time_stamp: 5, site_id: 2 },
            id: (3, 0),
            data: MetadataTransaction::Custom("mode".to_string(), "644".to_string()),
        }))
        .is_ok());
    fs.last_timestamp = 42;
    fs.last_id = 7;

    let bytes = fs.compress_to();
    let fs2 = FileSet::expand_from(&bytes, NullUpdater).unwrap();
    assert_eq!(fs2.last_timestamp, 42);
    assert_eq!(fs2.last_id, 7);
    assert_eq!(fs2.site_id, 3);
    assert_eq!(fs2.get_all_files().len(), 2);
    for entry in fs.get_all_files() {
        let m = meta_of(&fs2, entry.0);
        assert_eq!(m.filename, entry.1.filename);
        assert_eq!(m.printed_filename, entry.1.printed_filename);
        // keys, timestamps and values round-trip; the format carries no
        // author column, so decoded authors default to the file's site
        assert_eq!(m.attributes.len(), entry.1.attributes.len());
        for (a, b) in m.attributes.iter().zip(entry.1.attributes.iter()) {
            assert_eq!(a.0, b.0);
            assert_eq!(a.1.0, b.1.0);
            assert_eq!(a.1.2, b.1.2);
            assert_eq!(a.1.1, entry.0.0);
        }
    }
    assert_eq!(fs2.id_lookup.get_id_for(&p(&["dir", "one.txt"])), Some((3, 0)));
    assert_eq!(fs2.id_lookup.get_id_for(&p(&["two.txt"])), Some((3, 1)));
    assert_eq!(fs2.id_lookup.get_id_for(&p(&["dir"])), None);
}

#[test]
fn snapshot_exact_bytes() {
    let fs = FileSet::new(NullUpdater, 5);
    assert_eq!(fs.compress_to(), vec![0, 0, 0, 0, 0, 0, 0, 0, 0, 0, 0, 5, 0, 0, 0, 0]);

    let mut fs1 = FileSet::new(NullUpdater, 1);
    fs1.process_create(&p(&["a.txt"]));
    let expected: Vec<u8> = vec![
        0, 0, 0, 1, // last_timestamp
        0, 0, 0, 1, // last_id
        0, 0, 0, 1, // site_id
        0, 0, 0, 1, // file count
        0, 0, 0, 1, // file site
        0, 0, 0, 0, // file id
        0, 0, 0, 0, // filename timestamp
        0, 0, 0, 1, // component count
        0, 0, 0, 5, b'a', b'.', b't', b'x', b't', // component
        0, 0, 0, 5, b'a', b'.', b't', b'x', b't', // printed filename
        0, 0, 0, 0, // attribute count
    ];
    assert_eq!(fs1.compress_to(), expected);
}

#[test]
fn snapshot_accepts_any_record_order() {
    // two replicas that tracked the same files in different orders encode
    // records in different orders; both snapshots decode to the same views
    let mut a = FileSet::new(NullUpdater, 1);
    a.process_create(&p(&["x"]));
    a.process_create(&p(&["y"]));
    let mut b = FileSet::new(NullUpdater, 1);
    b.process_create(&p(&["y"]));
    b.process_create(&p(&["x"]));
    b.last_timestamp = a.last_timestamp;
    let da = FileSet::expand_from(&a.compress_to(), NullUpdater).unwrap();
    let db = FileSet::expand_from(&b.compress_to(), NullUpdater).unwrap();
    assert_eq!(da.id_lookup.get_id_for(&p(&["x"])), Some((1, 0)));
    assert_eq!(db.id_lookup.get_id_for(&p(&["x"])), Some((1, 1)));
    assert_eq!(da.get_all_files().len(), 2);
    assert_eq!(db.get_all_files().len(), 2);
}

#[test]
fn snapshot_rejects_truncated_input() {
    let mut fs = FileSet::new(NullUpdater, 1);
    fs.process_create(&p(&["a.txt"]));
    let bytes = fs.compress_to();
    for cut in [0, 3, 15, bytes.len() - 1] {
        let shorter: Vec<u8> = bytes[..cut].to_vec();
        match FileSet::<NullUpdater>::expand_from(&shorter, NullUpdater) {
            Err(FileSetError::IOError) => {},
            _ => panic!("truncated snapshot must be refused"),
        }
    }
}

#[test]
fn snapshot_decodes_invalid_utf8_lossily() {
    // header: counters 0/1/1, one file (1,0), one component of two raw bytes
    let mut bytes: Vec<u8> = Vec::new();
    for word in [0u32, 1, 1, 1, 1, 0, 0, 1, 2] {
        bytes.extend_from_slice(&word.to_be_bytes());
    }
    bytes.extend_from_slice(&[0xFF, 0xFE]); // not UTF-8
    bytes.extend_from_slice(&2u32.to_be_bytes());
    bytes.extend_from_slice(&[0xFF, 0xFE]); // printed filename, same bytes
    bytes.extend_from_slice(&0u32.to_be_bytes());
    let fs = FileSet::expand_from(&bytes, NullUpdater).unwrap();
    let m = meta_of(&fs, (1, 0));
    assert_eq!(m.filename.1[0], "\u{FFFD}\u{FFFD}".to_string());
    assert_eq!(m.printed_filename, "\u{FFFD}\u{FFFD}".to_string());
}

#[test]
fn remove_unknown_id_is_reported() {
    let mut fs = FileSet::new(NullUpdater, 1);
    match fs.integrate_remote(FileSetOperation::Remove(RemoveOperation { id: (9, 4) })) {
        Err(FileSetError::IDNotFound(9, 4)) => {},
        _ => panic!("expected IDNotFound(9, 4)"),
    }
    match fs.integrate_remote(FileSetOperation::UpdateMetadata(UpdateMetadata {
        state: State { time_stamp: 1, site_id: 2 },
        id: (9, 4),
        data: MetadataTransaction::Custom("k".to_string(), "v".to_string()),
    })) {
        Err(FileSetError::IDNotFound(9, 4)) => {},
        _ => panic!("expected IDNotFound(9, 4)"),
    }
}

#[test]
fn create_twice_changes_nothing() {
    let mut fs = FileSet::new(NullUpdater, 1);
    let op = || {
        FileSetOperation::Create(CreateOperation {
            state: State { time_stamp: 5, site_id: 2 },
            id: (2, 7),
            filename: p(&["a.txt"]),
        })
    };
    assert!(fs.integrate_remote(op()).is_ok());
    let files_before: Vec<(FileID, (u32, Vec<String>), String)> = fs
        .get_all_files()
        .iter()
        .map(|e| (e.0, e.1.filename.clone(), e.1.printed_filename.clone()))
        .collect();
    assert!(fs.integrate_remote(op()).is_ok());
    let files_after: Vec<(FileID, (u32, Vec<String>), String)> = fs
        .get_all_files()
        .iter()
        .map(|e| (e.0, e.1.filename.clone(), e.1.printed_filename.clone()))
        .collect();
    assert_eq!(files_before, files_after);
    assert_eq!(fs.id_lookup.get_id_for(&p(&["a.txt"])), Some((2, 7)));
    assert_eq!(fs.id_lookup.get_id_for(&p(&["a.txt(site 2)"])), None);
}

#[test]
fn collision_naming_is_deterministic() {
    // two independent replicas integrating the same creates in the same
    // order print the same disambiguated names
    let creates = || {
        vec![
            CreateOperation {
                state: State { time_stamp: 1, site_id: 7 },
                id: (7, 0),
                filename: p(&["n"]),
            },
            CreateOperation {
                state: State { time_stamp: 2, site_id: 12 },
                id: (12, 0),
                filename: p(&["n"]),
            },
            CreateOperation {
                state: State { time_stamp: 3, site_id: 12 },
                id: (12, 1),
                filename: p(&["n"]),
            },
        ]
    };
    let mut a = FileSet::new(NullUpdater, 3);
    let mut b = FileSet::new(NullUpdater, 4);
    for c in creates() {
        assert!(a.integrate_remote(FileSetOperation::Create(c)).is_ok());
    }
    for c in creates() {
        assert!(b.integrate_remote(FileSetOperation::Create(c)).is_ok());
    }
    for id in [(7, 0), (12, 0), (12, 1)] {
        assert_eq!(meta_of(&a, id).printed_filename, meta_of(&b, id).printed_filename);
    }
    assert_eq!(meta_of(&a, (7, 0)).printed_filename, "n".to_string());
    assert_eq!(meta_of(&a, (12, 0)).printed_filename, "n(site 12)".to_string());
    assert_eq!(meta_of(&a, (12, 1)).printed_filename, "n(site 12)(site 12)".to_string());
}

#[test]
fn file_move_keeps_identifier() {
    let mut fs = FileSet::new(NullUpdater, 1);
    fs.process_create(&p(&["old.txt"]));
    let op = fs.process_file_move(&p(&["old.txt"]), &p(&["new.txt"]));
    match op {
        FileSetOperation::UpdateMetadata(u) => {
            assert_eq!(u.id, (1, 0));
            assert_eq!(u.state.time_stamp, 1);
            assert_eq!(u.state.site_id, 1);
            match u.data {
                MetadataTransaction::Filename(f) => assert_eq!(f, p(&["new.txt"])),
                _ => panic!("expected a filename change"),
            }
        },
        _ => panic!("expected a metadata update"),
    }
    assert_eq!(fs.id_lookup.get_id_for(&p(&["old.txt"])), None);
    assert_eq!(fs.id_lookup.get_id_for(&p(&["new.txt"])), Some((1, 0)));
    assert_eq!(meta_of(&fs, (1, 0)).filename, (1, p(&["new.txt"])));
}

#[test]
fn process_remove_and_update() {
    let mut fs = FileSet::new(NullUpdater, 1);
    fs.process_create(&p(&["a.txt"]));
    assert!(fs.has_path(&p(&["a.txt"])));

    let op = fs.process_update(&p(&["a.txt"]), vec![1, 2, 3], BTreeMap::new());
    match op {
        FileSetOperation::Update(u, _) => {
            assert_eq!(u.id, (1, 0));
            assert_eq!(u.data, vec![1, 2, 3]);
        },
        _ => panic!("expected an update"),
    }

    let op = fs.process_remove(&p(&["a.txt"]));
    match op {
        FileSetOperation::Remove(r) => assert_eq!(r.id, (1, 0)),
        _ => panic!("expected a remove"),
    }
    assert!(!fs.has_path(&p(&["a.txt"])));
    assert!(fs.get_all_files().is_empty());
}

#[test]
fn histories_carry_metadata() {
    let mut fs = FileSet::new(NullUpdater, 1);
    fs.process_create(&p(&["a.txt"]));
    assert!(fs.get_file_history_for((1, 0)).is_some());
    assert!(fs.get_file_history_for((9, 9)).is_none());
    let histories = fs.get_changes_since(None);
    assert_eq!(histories.len(), 1);
    assert_eq!(histories[0].0, (1, 0));
    assert_eq!(histories[0].1.filename, (0, p(&["a.txt"])));
    assert!(histories[0].1.attributes.is_empty());

    let h = fileset::FileHistory::<NullUpdater>::new(
        3,
        p(&["b.txt"]),
        vec![("k".to_string(), (1, 4, "v".to_string()))],
        vec![9],
    );
    assert_eq!(h.filename, (3, p(&["b.txt"])));
    assert_eq!(h.attributes, vec![("k".to_string(), (1, 4, "v".to_string()))]);
    assert_eq!(h.operation_history, vec![9]);
}

#[test]
fn initial_sync_takes_peer_presence() {
    let mut fs = FileSet::new(NullUpdater, 1);
    fs.process_create(&p(&["mine.txt"]));
    // the peer shares our file and brings one of its own
    let remote = vec![
        (
            (1, 0),
            fileset::FileHistory::<NullUpdater>::new(0, p(&["mine.txt"]), Vec::new(), Vec::new()),
        ),
        (
            (2, 0),
            fileset::FileHistory::<NullUpdater>::new(6, p(&["theirs.txt"]), Vec::new(), Vec::new()),
        ),
    ];
    let local = vec![(p(&["mine.txt"]), false), (p(&["untracked.txt"]), true)];
    let ops = fs.integrate_remote_file_list(remote, BTreeMap::new(), local).unwrap();
    // the shared file surfaced its local changes; the untracked one a create
    // and, being non-empty, its content too — before the prune dropped it
    assert_eq!(ops.len(), 3);
    match &ops[0] {
        FileSetOperation::Update(u, _) => assert_eq!(u.id, (1, 0)),
        _ => panic!("expected an update for the shared file"),
    }
    match &ops[1] {
        FileSetOperation::Create(c) => {
            assert_eq!(c.filename, p(&["untracked.txt"]));
            assert_eq!(c.id, (1, 1));
        },
        _ => panic!("expected a create for the untracked file"),
    }
    match &ops[2] {
        FileSetOperation::Update(u, _) => assert_eq!(u.id, (1, 1)),
        _ => panic!("expected an update for the new file"),
    }
    assert_eq!(fs.get_all_files().len(), 2);
    assert_eq!(meta_of(&fs, (1, 0)).filename, (0, p(&["mine.txt"])));
    assert_eq!(meta_of(&fs, (2, 0)).filename, (6, p(&["theirs.txt"])));
    assert_eq!(fs.id_lookup.get_id_for(&p(&["mine.txt"])), Some((1, 0)));
    assert_eq!(fs.id_lookup.get_id_for(&p(&["untracked.txt"])), None);
    assert_eq!(fs.id_lookup.get_id_for(&p(&["theirs.txt"])), Some((2, 0)));
}

#[test]
fn snapshot_rejects_invariant_breakers() {
    // two records with the same identifier
    let mut bytes: Vec<u8> = Vec::new();
    for word in [0u32, 5, 9, 2] {
        bytes.extend_from_slice(&word.to_be_bytes());
    }
    for name in [b"a", b"b"] {
        for word in [1u32, 0, 0, 1, 1] {
            bytes.extend_from_slice(&word.to_be_bytes());
        }
        bytes.extend_from_slice(name);
        bytes.extend_from_slice(&1u32.to_be_bytes());
        bytes.extend_from_slice(name);
        bytes.extend_from_slice(&0u32.to_be_bytes());
    }
    match FileSet::<NullUpdater>::expand_from(&bytes, NullUpdater) {
        Err(FileSetError::IOError) => {},
        _ => panic!("a duplicated identifier must be refused"),
    }

    // a record with no path components
    let mut bytes: Vec<u8> = Vec::new();
    for word in [0u32, 5, 9, 1, 1, 0, 0, 0, 0, 0] {
        bytes.extend_from_slice(&word.to_be_bytes());
    }
    match FileSet::<NullUpdater>::expand_from(&bytes, NullUpdater) {
        Err(FileSetError::IOError) => {},
        _ => panic!("a record without components must be refused"),
    }
}
