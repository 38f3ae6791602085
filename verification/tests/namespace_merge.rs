use loam::loam_hash::fnv1a64;
use loam::loam_snapshot::{
    check_header, snap_open_best, snap_open_one, snap_path, snap_read_at, snap_writer_append, snap_writer_finish,
    snap_writer_start, OpenSnapshot, Probe, SnapRecord, SnapSearch, REC_SIZE, SNAP_HDR,
};
use loam::loam_wire::DecodedLookupResp;
use loam::namespace_apply::NamespaceTable;
use loam::namespace_compact::{compaction_due, snap_record_from_slot, Compactor, MergeStep};
use loam::namespace_reads::lookup_found;

/// Two paths with the same hash.
const ONE: &[u8] = b"8yn0iYCKYHlIj4-BwPqk";

const OTHER: &[u8] = b"GReLUrM4wMqfg9yzV3KQ";

/// Merge a table with the snapshot before.
fn merged_with<const N: usize>(t: &mut NamespaceTable<N>, old: &[SnapRecord]) -> Vec<SnapRecord> {
    let mut c = Compactor::new();
    c.start(t, 1, 5, 2);
    assert!(c.running && t.merging);
    let mut out: Vec<SnapRecord> = Vec::new();
    loop {
        let before = c.wants(t, old.len() as u32).map(|i| old[i as usize]);
        match c.compaction_step(t, before.as_ref()) {
            MergeStep::Finish => break,
            MergeStep::Take { slot, key, record } => {
                if let Some(r) = record {
                    out.push(r);
                }
                c.took(t, slot, key);
            },
            MergeStep::Copy => {
                out.push(before.unwrap());
                c.copied();
            },
            MergeStep::Drop => c.copied(),
        }
    }
    assert_eq!(c.finish(t), 1);
    assert!(t.snap_active && !t.merging && !c.running);
    assert_eq!(c.snapshots_written, 1);
    out
}

/// The record of a key, as a search finds it.
fn searched(records: &[SnapRecord], root: &[u8], path: &[u8]) -> Option<SnapRecord> {
    let snap = OpenSnapshot { fd: 3, count: records.len() as u32, generation: 1 };
    let mut s = SnapSearch::start(&snap, root, path);
    while let Some(idx) = s.probe() {
        let rec = &records[idx as usize];
        if s.narrow(rec) == Probe::Found {
            return Some(*rec);
        }
    }
    None
}

fn table(n: usize) -> NamespaceTable<4> {
    let mut t = NamespaceTable::<4>::new();
    let paths: [&[u8]; 4] = [b"/a", b"/b", b"/c", b"/d"];
    for path in paths.iter().take(n) {
        t.bindings.bind(b"r", path, b"oid", 0, 7).unwrap();
    }
    t
}

#[test]
fn a_record_comes_back() {
    let t = table(1);
    let rec = snap_record_from_slot(t.bindings.slot_ref(0).unwrap());
    assert_eq!(rec.key(), (fnv1a64(b"r"), fnv1a64(b"/a")));
    let mut buf = [0u8; REC_SIZE];
    assert!(rec.encode(&mut buf));
    let back = SnapRecord::decode(&buf).unwrap();
    assert!(back.is_sound());
    assert_eq!((back.root(), back.path(), back.object_id()), (&b"r"[..], &b"/a"[..], &b"oid"[..]));
    assert_eq!((back.revision, back.kind), (7, 0));
    assert!(SnapRecord::decode(&buf[..REC_SIZE - 1]).is_none());
    assert!(!rec.encode(&mut buf[..10]));
    let mut req = [0u8; 64];
    let n = loam::loam_wire::encode_lookup_req(&mut req, b"r", b"/a").unwrap();
    let (frame, hit) = lookup_found(&req[..n], Some(&back)).unwrap();
    assert!(hit);
    match loam::loam_wire::decode_lookup_resp(&frame).unwrap() {
        DecodedLookupResp::Found { object_id, revision, .. } => assert_eq!((object_id, revision), (&b"oid"[..], 7)),
        DecodedLookupResp::NotFound => panic!("lost"),
    }
}

#[test]
fn the_record_of_another_key_is_no_answer() {
    let t = table(1);
    let rec = snap_record_from_slot(t.bindings.slot_ref(0).unwrap());
    assert!(rec.is_key(b"r", b"/a"));
    assert!(!rec.is_key(b"r", b"/b") && !rec.is_key(b"s", b"/a"));
    let mut req = [0u8; 64];
    let n = loam::loam_wire::encode_lookup_req(&mut req, b"r", b"/b").unwrap();
    let (frame, hit) = lookup_found(&req[..n], Some(&rec)).unwrap();
    assert!(!hit);
    assert!(matches!(loam::loam_wire::decode_lookup_resp(&frame).unwrap(), DecodedLookupResp::NotFound));
    assert!(lookup_found(&[], Some(&rec)).is_none());
}

#[test]
fn the_longest_key_has_a_record() {
    let mut t = NamespaceTable::<4>::new();
    t.bindings.bind(&[b'r'; 64], &[b'p'; 1024], &[b'o'; 96], 0, 1).unwrap();
    let rec = snap_record_from_slot(t.bindings.slot_ref(0).unwrap());
    let mut buf = [0u8; REC_SIZE];
    assert!(rec.encode(&mut buf));
    let back = SnapRecord::decode(&buf).unwrap();
    assert!(back.is_key(&[b'r'; 64], &[b'p'; 1024]));
    assert_eq!(back.object_id(), &[b'o'; 96][..]);
    let mut c = Compactor::new();
    c.start(&mut t, 0, 3, 1);
    match c.compaction_step(&t, None) {
        MergeStep::Take { slot: 0, key, record: Some(r) } => {
            assert_eq!(r.path().len(), 1024);
            c.took(&mut t, 0, key);
        },
        _ => panic!("not taken"),
    }
    assert!(matches!(c.compaction_step(&t, None), MergeStep::Finish));
    c.finish(&mut t);
    assert!(!t.merging && t.snap_active);
}

#[test]
fn a_snapshot_has_a_path() {
    let mut out = [0u8; 16];
    let n = snap_path(b"/w/ns", 0, &mut out);
    assert_eq!(&out[..n], b"/w/ns.snapA");
    let n = snap_path(b"/w/ns", 1, &mut out);
    assert_eq!(&out[..n], b"/w/ns.snapB");
    assert_eq!(snap_path(b"/w/ns", 1, &mut out[..10]), 0);
}

#[test]
fn only_a_finished_file_is_a_snapshot() {
    let (mut w, begun) = snap_writer_start(3, 9);
    assert_eq!(check_header(&begun, Some(16)), None);
    assert!(snap_writer_append(&mut w, REC_SIZE as i32));
    assert!(!snap_writer_append(&mut w, 100));
    let done = snap_writer_finish(&w);
    assert_eq!(check_header(&done, Some(16 + 1213)), Some((1, 9)));
    assert_eq!(check_header(&done, Some(16)), None);
    assert_eq!(check_header(&done, None), None);
    let open = snap_open_one(3, &done, Some(16 + 1213)).unwrap();
    assert_eq!(snap_read_at(&open, 0), Some(SNAP_HDR as u32));
    assert_eq!(snap_read_at(&open, 1), None);
}

#[test]
fn the_newer_snapshot_is_used() {
    let a = OpenSnapshot { fd: 3, count: 1, generation: 4 };
    let b = OpenSnapshot { fd: 4, count: 2, generation: 5 };
    assert_eq!(snap_open_best(Some(a), Some(b)), (Some((b, 1)), Some(3)));
    assert_eq!(snap_open_best(Some(b), Some(a)), (Some((b, 0)), Some(3)));
    assert_eq!(snap_open_best(Some(a), None), (Some((a, 0)), None));
    assert_eq!(snap_open_best(None, Some(b)), (Some((b, 1)), None));
    assert_eq!(snap_open_best(None, None), (None, None));
}

#[test]
fn a_search_finds_what_is_there() {
    let mut t = NamespaceTable::<8>::new();
    let paths: [&[u8]; 6] = [b"/a", b"/b", b"/c", ONE, OTHER, b"/d"];
    for path in paths {
        t.bindings.bind(b"r", path, path, 0, 1).unwrap();
    }
    let records = merged_with(&mut t, &[]);
    assert_eq!(records.len(), 6);
    for path in paths {
        assert_eq!(searched(&records, b"r", path).unwrap().object_id(), path);
        assert!(searched(&records, b"s", path).is_none());
    }
    assert!(searched(&records, b"r", b"/e").is_none());
    assert!(searched(&[], b"r", b"/a").is_none());
}

#[test]
fn a_hash_is_no_identity_in_a_merge() {
    assert_eq!(fnv1a64(ONE), fnv1a64(OTHER));
    let mut t = NamespaceTable::<8>::new();
    t.bindings.bind(b"r", ONE, b"first", 0, 1).unwrap();
    let old = merged_with(&mut t, &[]);
    let mut t = NamespaceTable::<8>::new();
    t.bindings.bind(b"r", OTHER, b"second", 0, 1).unwrap();
    t.snap_active = true;
    let both = merged_with(&mut t, &old);
    assert_eq!(both.len(), 2);
    assert_eq!(searched(&both, b"r", ONE).unwrap().object_id(), b"first");
    assert_eq!(searched(&both, b"r", OTHER).unwrap().object_id(), b"second");
    let mut t = NamespaceTable::<8>::new();
    t.bindings.tombstone(b"r", ONE, 2).unwrap();
    t.snap_active = true;
    let left = merged_with(&mut t, &both);
    assert!(searched(&left, b"r", ONE).is_none());
    assert_eq!(searched(&left, b"r", OTHER).unwrap().object_id(), b"second");
    let mut t = NamespaceTable::<8>::new();
    t.bindings.bind(b"r", ONE, b"third", 0, 3).unwrap();
    t.bindings.bind(b"r", OTHER, b"fourth", 0, 3).unwrap();
    t.snap_active = true;
    let last = merged_with(&mut t, &both);
    assert_eq!(last.len(), 2);
    assert_eq!(searched(&last, b"r", ONE).unwrap().object_id(), b"third");
    assert_eq!(searched(&last, b"r", OTHER).unwrap().object_id(), b"fourth");
}

#[test]
fn a_merge_is_due_once_the_table_fills_up() {
    assert!(!compaction_due(&table(2), true));
    assert!(compaction_due(&table(3), true));
    assert!(!compaction_due(&table(3), false));
    let mut t = table(4);
    t.snap_active = true;
    assert!(compaction_due(&t, true));
    for i in 0..4 {
        t.bindings.mark_emitted(i, 1);
    }
    t.bindings.finalize_emitted(1);
    assert!(!compaction_due(&t, true));
}

#[test]
fn snapshots_take_turns() {
    assert_eq!(Compactor::plan(false, 0, 0), (0, 1));
    assert_eq!(Compactor::plan(true, 0, 1), (1, 2));
    assert_eq!(Compactor::plan(true, 1, 2), (0, 3));
}

#[test]
fn a_merge_keeps_every_binding() {
    let mut t = table(3);
    t.bindings.tombstone(b"r", b"/b", 8).unwrap();
    let old_slot = {
        let mut other = NamespaceTable::<4>::new();
        other.bindings.bind(b"r", b"/b", b"stale", 0, 1).unwrap();
        other.bindings.bind(b"r", b"/z", b"kept", 0, 1).unwrap();
        other
    };
    let mut old: Vec<SnapRecord> = (0..2)
        .map(|i| snap_record_from_slot(old_slot.bindings.slot_ref(i).unwrap()))
        .collect();
    old.sort_by_key(|r| r.key());
    t.snap_active = true;
    let out = merged_with(&mut t, &old);
    let keys: Vec<(u64, u64)> = out.iter().map(|r| r.key()).collect();
    let mut sorted = keys.clone();
    sorted.sort();
    assert_eq!(keys, sorted);
    let mut paths: Vec<Vec<u8>> = out.iter().map(|r| r.path().to_vec()).collect();
    paths.sort();
    assert_eq!(paths, vec![b"/a".to_vec(), b"/c".to_vec(), b"/z".to_vec()]);
    assert_eq!(t.bindings.dirty_count(), 0);
}
