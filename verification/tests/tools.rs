use loam::body_e2e_probe as body_probe;
use loam::clustor_bridge::{
    outcome_of, p_group_id, witness_query, CommitOutcome, CommittedEntry, ModuleState as Bridge, Proposal,
};
use loam::namespace_provider::CommitProof;
use loam::loam_body_wire as body;
use loam::loam_load_gen::{ModuleState as LoadGen, Offer, PLANE_METADATA, PLANE_NAMESPACE};
use loam::loam_throughput_counter::{Framed, Resolution, ModuleState as ThroughputCounter, ACK_NOT_READY, ACK_REFUSED};
use loam::loam_wire::decode_bind;
use loam::metadata_e2e_probe as meta_probe;
use loam::raft_metadata_client::{heartbeat, ProposerState};
use loam::text::{bytes_of, copy_tag, push_hex, push_tag, write_hex, write_hex_u32};
use loam::wal_params::{decode_root_dir_params, decode_wal_path_params};

#[test]
fn numbers_are_written_in_hex() {
    let mut line = Vec::new();
    push_tag(&mut line, "n=");
    push_hex(&mut line, 0xBEEF, 8);
    push_hex(&mut line, 0x123, 2);
    assert_eq!(line, b"n=0000beef23".to_vec());
    let mut dst = [b'-'; 8];
    assert_eq!(copy_tag(&mut dst, b"ab"), 2);
    write_hex(&mut dst, 6, 4, 0xA1);
    assert_eq!(&dst, b"ab00a1--");
    assert_eq!(write_hex_u32(&mut dst, 0xFFFF_0001), 8);
    assert_eq!(&dst, b"ffff0001");
    assert_eq!(bytes_of("xyz"), b"xyz");
}

#[test]
fn a_path_among_parameters() {
    assert_eq!(decode_wal_path_params(b"/wal/ns"), Some(b"/wal/ns".to_vec()));
    assert_eq!(decode_wal_path_params(b""), None);
    let tagged = [0xFE, 0x01, 0, 0, 7, 1, 9, 1, 2, b'/', b'w', 0xFF, 0];
    assert_eq!(decode_wal_path_params(&tagged), Some(b"/w".to_vec()));
    assert_eq!(decode_wal_path_params(&tagged[..10]), None);
    assert_eq!(decode_wal_path_params(&[0xFE, 0x01, 0, 0, 0xFF, 0]), None);
    assert_eq!(decode_wal_path_params(&[b'x'; 300]).unwrap().len(), 256);
    assert_eq!(decode_root_dir_params(b"/r"), Some(b"/r".to_vec()));
    assert_eq!(decode_root_dir_params(&tagged), Some(b"/w".to_vec()));
    assert_eq!(decode_root_dir_params(&[b'x'; 193]), None);
}

#[test]
fn load_comes_in_batches() {
    let mut g = LoadGen::new(2, 2, 3, 1, 0, PLANE_NAMESPACE);
    assert!(g.step().is_none());
    assert!(g.next_offer().is_none());
    g.step();
    match g.next_offer() {
        Some(Offer::Bind { bind }) => {
            let d = decode_bind(&bind).unwrap();
            assert_eq!((d.namespace_root, d.path, d.object_id), (&b"acme"[..], &b"/p000000"[..], &b"o000000"[..]));
            assert_eq!(d.revision, 1);
        },
        _ => panic!("no bind"),
    }
    g.offer_done(false);
    assert!(g.next_offer().is_none());
    assert_eq!((g.refused, g.seq), (1, 0));
    g.step();
    assert!(g.next_offer().is_none());
    g.step();
    g.offer_done(true);
    g.offer_done(true);
    assert!(g.next_offer().is_none());
    g.step();
    g.step();
    match g.next_offer() {
        Some(Offer::Bind { bind }) => assert_eq!(decode_bind(&bind).unwrap().path, b"/p000002"),
        _ => panic!("no bind"),
    }
    g.offer_done(true);
    assert!(g.next_offer().is_none());
    assert_eq!(g.emitted, 3);
}

#[test]
fn load_counts_up_whatever_is_refused() {
    let mut g = LoadGen::new(1, 20, 12, 0, 1000, PLANE_NAMESPACE);
    let mut taken: Vec<u64> = Vec::new();
    let mut turn = 0u32;
    for _ in 0..20 {
        g.step();
        let mut in_step = 0;
        while let Some(Offer::Bind { bind }) = g.next_offer() {
            turn += 1;
            let ok = turn % 3 != 0;
            if ok {
                taken.push(decode_bind(&bind).unwrap().revision - 1);
                in_step += 1;
            }
            g.offer_done(ok);
        }
        assert!(in_step <= 8);
    }
    assert_eq!(taken, (0..12).collect::<Vec<u64>>());
}

#[test]
fn load_is_proposed_and_reported() {
    let mut g = LoadGen::new(1, 1, 0, 0, 2, PLANE_METADATA);
    assert!(g.step().is_none());
    assert!(matches!(g.next_offer(), Some(Offer::Propose { correlation_id: 1, .. })));
    g.offer_done(true);
    assert_eq!(
        g.step(),
        Some(b"[loam-lg] w=00000002 o=00000001 e=00000001 E=00000001 R=00000000".to_vec())
    );
}

#[test]
fn acknowledgements_are_counted() {
    let mut c = ThroughputCounter::new(1);
    c.begin_step();
    assert_eq!(c.room(), 512);
    c.feed(&[1, ACK_REFUSED, 2, ACK_NOT_READY, 3]);
    c.count_acks();
    assert_eq!((c.tally.total_committed, c.tally.total_aborted), (3, 2));
    assert_eq!(
        c.end_step(),
        Some(b"[loam-tp] w=00000001 c=00000003 a=00000002 C=00000003 A=00000002".to_vec())
    );
    assert_eq!((c.tally.window_committed, c.tally.total_committed), (0, 3));
}

#[test]
fn decisions_are_counted() {
    let mut c = ThroughputCounter::new(5);
    c.feed(&[9, 9, 9, 8, 7]);
    assert!(c.count_record(Framed::Whole { len: 3, resolution: Resolution::Committed }));
    assert!(c.count_record(Framed::Foreign));
    assert!(!c.count_record(Framed::Partial));
    assert!(c.count_record(Framed::Whole { len: 1, resolution: Resolution::Aborted }));
    assert_eq!((c.tally.total_committed, c.tally.total_aborted, c.tally.unparsed), (1, 1, 1));
    assert!(c.end_step().is_none());
}

#[test]
fn the_body_probe_tells() {
    let mut probe = body_probe::ModuleState::new();
    let frame = match probe.module_step(&[]) {
        body_probe::ProbeStep::Send { frame } => frame,
        _ => panic!("nothing sent"),
    };
    let stored = body::decode_put_req(&frame).unwrap().to_vec();
    let mut buf = [0u8; 128];
    let n = body::encode_put_resp(&mut buf, &[7u8; 32]).unwrap();
    assert!(matches!(probe.module_step(&[]), body_probe::ProbeStep::Nothing));
    match probe.module_step(&buf[..n]) {
        body_probe::ProbeStep::Send { frame } => assert_eq!(body::decode_get_req(&frame), Ok(&[7u8; 32][..])),
        _ => panic!("nothing sent"),
    }
    let mut other = probe;
    let n = body::encode_get_resp(&mut buf, &stored).unwrap();
    assert!(matches!(
        probe.module_step(&buf[..n]),
        body_probe::ProbeStep::Log { line: "[body_e2e] PASS" }
    ));
    assert_eq!(probe.phase, body_probe::Phase::Done);
    assert!(matches!(
        other.module_step(&buf[..n - 1]),
        body_probe::ProbeStep::Log { line: "[body_e2e] FAIL body" }
    ));
    let mut refused = body_probe::ModuleState { phase: body_probe::Phase::AwaitDigest };
    assert!(matches!(
        refused.module_step(&[body::OP_NAK, 1]),
        body_probe::ProbeStep::Log { line: "[body_e2e] FAIL put-resp" }
    ));
}

#[test]
fn the_metadata_probe_tells() {
    let bind = meta_probe::encode_probe_bind();
    assert!(meta_probe::is_probe_bind(&bind));
    assert!(!meta_probe::is_probe_bind(&bind[1..]));
    let mut p = meta_probe::ModuleState::new();
    for _ in 0..49 {
        assert_eq!(p.step(), meta_probe::ProbeStep::Nothing);
    }
    assert_eq!(p.step(), meta_probe::ProbeStep::Propose);
    assert_eq!(p.step(), meta_probe::ProbeStep::Read);
    assert!(!p.judge(meta_probe::PlaneRecord::Marker));
    p.drain_done();
    assert_eq!(p.phase, meta_probe::Phase::Await);
    assert!(p.judge(meta_probe::PlaneRecord::Committed { inner: &bind, witnessed: true }));
    assert_eq!(p.phase, meta_probe::Phase::Done { verdict: meta_probe::Verdict::Pass });
    assert_eq!(meta_probe::verdict_line(meta_probe::Verdict::Pass), "[meta_e2e] PASS");
    let mut q = meta_probe::ModuleState { phase: meta_probe::Phase::Await, ticks: 30_001 };
    q.drain_done();
    assert_eq!(q.phase, meta_probe::Phase::Done { verdict: meta_probe::Verdict::Timeout });
    q.judge(meta_probe::PlaneRecord::Other);
    assert_eq!(meta_probe::verdict_line(meta_probe::Verdict::Mismatch), "[meta_e2e] FAIL mismatch");
}

#[test]
fn a_proposer_says_how_it_is() {
    let mut s = ProposerState {
        ticks: 2048,
        wal_fd: -1,
        wal_open_rc: -2,
        proposed: 1,
        committed: 2,
        aborted: 3,
        apply_errors: 4,
        in_flight: 5,
    };
    assert_eq!(
        heartbeat(&s),
        Some(b"[loam-mp] wal=-00000002 p=00000001 c=00000002 a=00000003 e=00000004 q=00000005".to_vec())
    );
    s.ticks = 1;
    assert!(heartbeat(&s).is_none());
}

#[test]
fn a_group_name_is_folded() {
    assert_eq!(&p_group_id(b"meta"), b"meta\0\0\0\0\0\0\0\0\0\0\0\0");
    assert_eq!(p_group_id(b""), [0u8; 16]);
    let long = p_group_id(b"0123456789abcdefA");
    assert_eq!(long[0], b'0' ^ (b'A' << 1));
    assert_eq!(&long[1..], b"123456789abcdef");
    assert_ne!(p_group_id(b"0123456789abcdef-east"), p_group_id(b"0123456789abcdef-west"));
}

#[test]
fn a_commit_carries_its_whole_proof() {
    let mut b = Bridge::new();
    let entry = CommittedEntry { partition_id: 5, term: 7, index: 9, command: b"propose".to_vec() };
    let q = b.source_query(&entry);
    assert_eq!((q.group_id, q.partition_id), ([0u8; 16], 5));
    assert_eq!(b.commit_proof(&entry, [1u8; 16], [2u8; 32]).quorum, 1);
    b.set_witness_quorum(2);
    b.set_group_id(b"meta");
    assert_eq!(b.source_query(&entry).group_id, p_group_id(b"meta"));
    let w = witness_query(&entry, [1u8; 16]);
    assert_eq!((w.source, w.term, w.index, w.command), ([1u8; 16], 7, 9, &b"propose"[..]));
    assert_eq!(
        b.commit_proof(&entry, [1u8; 16], [2u8; 32]),
        CommitProof { source: [1u8; 16], term: 7, index: 9, quorum: 2, witness: [2u8; 32] }
    );
    assert_eq!(outcome_of(Some(&[0u8; 4400])), CommitOutcome::Emitted);
    assert_eq!(outcome_of(Some(&[0u8; 4401])), CommitOutcome::Failed);
    assert_eq!(outcome_of(None), CommitOutcome::Failed);
    b.feed_proposals(&[1, 2]);
    assert!(b.take_proposal(Proposal::Whole { len: 1, frame: Some(vec![0u8; 4401]) }));
    assert!(b.owed().is_empty());
    assert!(b.take_proposal(Proposal::Whole { len: 1, frame: Some(vec![0u8; 4400]) }));
    assert_eq!(b.owed().len(), 4400);
}

#[test]
fn a_frame_goes_out_before_another_is_begun() {
    let mut b = Bridge::new();
    assert!(b.step().is_none());
    assert_eq!(b.proposal_room(), 4400);
    b.feed_proposals(&[1, 2, 3, 4]);
    assert_eq!(b.next_proposal(), Some(&[1u8, 2, 3, 4][..]));
    assert!(b.take_proposal(Proposal::Foreign));
    assert!(b.take_proposal(Proposal::Whole { len: 2, frame: Some(vec![9, 8, 7]) }));
    assert!(b.next_proposal().is_none());
    b.offer_done(1);
    assert_eq!(b.owed(), &[8, 7]);
    assert!(!b.flush(1));
    assert!(b.flush(1));
    assert_eq!(b.next_proposal(), Some(&[4u8][..]));
    assert!(!b.take_proposal(Proposal::Partial));
    b.feed_commits(&[5, 6, 7]);
    b.take_commit(1, CommitOutcome::Emitted);
    b.take_commit(1, CommitOutcome::Failed);
    assert_eq!(b.next_commit(), &[7]);
    assert_eq!(b.commit_room(), 4399);
    for _ in 1..2047 {
        assert!(b.step().is_none());
    }
    assert_eq!(b.step(), Some(b"[bridge] f=00000000 c=00000001 e=00000002".to_vec()));
}
