use loam::loam_change_wire::{decode_record, is_lost_sentinel, KIND_ADDED, KIND_DELETED, KIND_MODIFIED};
use loam::loam_change_wire::{EVENT_HEADER_SIZE, STATUS_EVENTS, STATUS_LOST};
use loam::loam_wire::{encode_bind, encode_lookup_req, encode_rename, encode_unbind, OP_BIND, OP_LOOKUP, OP_UNBIND};
use loam::namespace_changes::changes_since;
use loam::namespace_list::{list_take, ListPage};
use loam::namespace_pic_body::{
    respond_applied, Answer, Committed, ModuleState as NsState, NsNext, NAK, NAK_NOT_READY, NAK_RESERVED,
};
use loam::namespace_pic_state::PicNamespaceState;
use loam::namespace_provider::{
    achieved_fence, fence_answer, fence_query, read_fence_out, view_source, CommitProof, Fence, FenceCall, FenceOut,
    NamespaceProvider, ProviderReply,
    E_EXIST, E_INVAL, E_MFILE, E_NOENT, E_NOSYS, NS_CAPS, NS_OPEN_MAX, NS_OP_BIND, NS_OP_CAPS, NS_OP_CHANGES,
    NS_OP_CLOSE, NS_OP_DELETE, NS_OP_LIST, NS_OP_LOOKUP, NS_OP_RENAME, NS_OP_STAT, NS_OP_SUBSCRIBE, SUB_HANDLE_BASE,
};
use loam::namespace_apply::{ApplyFault, Done, EventBuf, LogEvent, NamespaceTable};
use loam::namespace_watch::{Watchers, NS_SUB_MAX};
use loam::object_pic_body::AppendState;

const PROOF: CommitProof = CommitProof { source: [1u8; 16], term: 3, index: 8, quorum: 2, witness: [2u8; 32] };

fn sized(b: &[u8]) -> Vec<u8> {
    let mut v = (b.len() as u16).to_le_bytes().to_vec();
    v.extend_from_slice(b);
    v
}

fn bind_arg(path: &[u8], kind: u8, flags: u8, target: &[u8]) -> Vec<u8> {
    let mut a = sized(path);
    a.push(kind);
    a.push(flags);
    a.extend_from_slice(&sized(target));
    a
}

fn code(r: ProviderReply) -> i32 {
    match r {
        ProviderReply::Code(c) => c,
        _ => panic!("no code"),
    }
}

fn changed(r: ProviderReply) -> Vec<(u8, Vec<u8>, Vec<u8>)> {
    match r {
        ProviderReply::Applied { changes, .. } => {
            changes.into_iter().map(|c| (c.kind, c.key, c.value)).collect()
        },
        ProviderReply::Code(c) => panic!("refused: {}", c),
        _ => panic!("nothing applied"),
    }
}

#[test]
fn an_entry_is_bound_opened_and_read() {
    let mut p = NamespaceProvider::<4>::new();
    assert_eq!(code(p.provider_dispatch_impl(0, NS_OP_CAPS, &[])), NS_CAPS as i32);
    assert_eq!(code(p.provider_dispatch_impl(0, 0x9999, &[])), E_NOSYS);
    let done = changed(p.provider_dispatch_impl(0, NS_OP_BIND, &bind_arg(b"/a", 2, 0, b"obj")));
    assert_eq!(done, vec![(KIND_ADDED, b"/a".to_vec(), b"obj".to_vec())]);
    assert_eq!(code(p.provider_dispatch_impl(0, NS_OP_LOOKUP, b"/b")), E_NOENT);
    assert_eq!(code(p.provider_dispatch_impl(0, NS_OP_LOOKUP, b"")), E_INVAL);
    let h = code(p.provider_dispatch_impl(0, NS_OP_LOOKUP, b"/a"));
    assert_eq!(h, 0);
    match p.provider_dispatch_impl(h, NS_OP_STAT, &[0u8; 32]) {
        ProviderReply::Bytes(b) => assert_eq!(b, [&[2u8, 1, 0, 0, 0, 0, 0, 0, 0, 3, 0][..], b"obj"].concat()),
        _ => panic!("no stat"),
    }
    assert_eq!(code(p.provider_dispatch_impl(h, NS_OP_STAT, &[0u8; 4])), E_INVAL);
    assert_eq!(code(p.provider_dispatch_impl(h, NS_OP_CLOSE, &[])), 0);
    assert_eq!(code(p.provider_dispatch_impl(h, NS_OP_STAT, &[0u8; 32])), E_INVAL);
    assert_eq!(code(p.provider_dispatch_impl(h, NS_OP_CLOSE, &[])), E_INVAL);
}

#[test]
fn an_open_entry_keeps_its_revision() {
    let mut p = NamespaceProvider::<4>::new();
    changed(p.provider_dispatch_impl(0, NS_OP_BIND, &bind_arg(b"/a", 0, 0, b"o")));
    let h = code(p.provider_dispatch_impl(0, NS_OP_LOOKUP, b"/a"));
    assert_eq!(code(p.provider_dispatch_impl(0, NS_OP_BIND, &bind_arg(b"/a", 0, 0, b"o2"))), E_EXIST);
    let done = changed(p.provider_dispatch_impl(0, NS_OP_BIND, &bind_arg(b"/a", 0, 1, b"o2")));
    assert_eq!(done[0].0, KIND_MODIFIED);
    assert_eq!(code(p.provider_dispatch_impl(h, NS_OP_STAT, &[0u8; 32])), E_NOENT);
}

#[test]
fn a_deleted_entry_is_gone() {
    let mut p = NamespaceProvider::<4>::new();
    changed(p.provider_dispatch_impl(0, NS_OP_BIND, &bind_arg(b"/a", 0, 0, b"o")));
    let done = changed(p.provider_dispatch_impl(0, NS_OP_DELETE, &sized(b"/a")));
    assert_eq!(done, vec![(KIND_DELETED, b"/a".to_vec(), vec![])]);
    assert_eq!(code(p.provider_dispatch_impl(0, NS_OP_LOOKUP, b"/a")), E_NOENT);
    assert_eq!(code(p.provider_dispatch_impl(0, NS_OP_DELETE, &sized(b"/a"))), E_NOENT);
    assert_eq!(code(p.provider_dispatch_impl(0, NS_OP_DELETE, &[9])), E_INVAL);
}

#[test]
fn a_deleted_entry_can_be_bound_again() {
    let mut p = NamespaceProvider::<4>::new();
    changed(p.provider_dispatch_impl(0, NS_OP_BIND, &bind_arg(b"/a", 0, 0, b"o")));
    changed(p.provider_dispatch_impl(0, NS_OP_DELETE, &sized(b"/a")));
    let done = changed(p.provider_dispatch_impl(0, NS_OP_BIND, &bind_arg(b"/a", 0, 0, b"n")));
    assert_eq!(done, vec![(KIND_ADDED, b"/a".to_vec(), b"n".to_vec())]);
    assert_eq!(p.table.bindings.lookup(b"", b"/a").unwrap().revision, 3);
    changed(p.provider_dispatch_impl(0, NS_OP_BIND, &bind_arg(b"/b", 0, 0, b"m")));
    changed(p.provider_dispatch_impl(0, NS_OP_DELETE, &sized(b"/a")));
    let done = changed(p.provider_dispatch_impl(0, NS_OP_RENAME, &[sized(b"/b"), sized(b"/a")].concat()));
    assert_eq!(done[1], (KIND_ADDED, b"/a".to_vec(), b"m".to_vec()));
    assert_eq!(p.table.bindings.lookup(b"", b"/a").unwrap().object_id(), b"m");
}

#[test]
fn an_open_entry_is_never_another() {
    let mut p = NamespaceProvider::<4>::new();
    changed(p.provider_dispatch_impl(0, NS_OP_BIND, &bind_arg(b"/a", 0, 0, b"o")));
    let h = code(p.provider_dispatch_impl(0, NS_OP_LOOKUP, b"/a"));
    p.table.bindings.unbind(b"", b"/a").unwrap();
    changed(p.provider_dispatch_impl(0, NS_OP_BIND, &bind_arg(b"/b", 0, 0, b"x")));
    assert_eq!(p.table.bindings.slot_ref(0).unwrap().path(), b"/b");
    assert_eq!(code(p.provider_dispatch_impl(h, NS_OP_STAT, &[0u8; 32])), E_NOENT);
}

#[test]
fn a_renamed_entry_moves() {
    let mut p = NamespaceProvider::<4>::new();
    changed(p.provider_dispatch_impl(0, NS_OP_BIND, &bind_arg(b"/a", 0, 0, b"o")));
    changed(p.provider_dispatch_impl(0, NS_OP_BIND, &bind_arg(b"/b", 0, 0, b"p")));
    let arg = |from: &[u8], to: &[u8]| [sized(from), sized(to)].concat();
    assert_eq!(code(p.provider_dispatch_impl(0, NS_OP_RENAME, &arg(b"/x", b"/y"))), E_NOENT);
    assert_eq!(code(p.provider_dispatch_impl(0, NS_OP_RENAME, &arg(b"/a", b"/b"))), E_EXIST);
    let done = changed(p.provider_dispatch_impl(0, NS_OP_RENAME, &arg(b"/a", b"/c")));
    assert_eq!(done[0], (KIND_DELETED, b"/a".to_vec(), vec![]));
    assert_eq!(done[1], (KIND_ADDED, b"/c".to_vec(), b"o".to_vec()));
}

#[test]
fn only_so_many_entries_are_open() {
    let mut p = NamespaceProvider::<4>::new();
    changed(p.provider_dispatch_impl(0, NS_OP_BIND, &bind_arg(b"/a", 0, 0, b"o")));
    for i in 0..NS_OPEN_MAX {
        assert_eq!(code(p.provider_dispatch_impl(0, NS_OP_LOOKUP, b"/a")), i as i32);
    }
    assert_eq!(code(p.provider_dispatch_impl(0, NS_OP_LOOKUP, b"/a")), E_MFILE);
}

#[test]
fn a_subscriber_hears_of_what_is_under_its_prefix() {
    let mut p = NamespaceProvider::<4>::new();
    changed(p.provider_dispatch_impl(0, NS_OP_BIND, &bind_arg(b"/a/1", 0, 0, b"o")));
    let mut arg = sized(b"/a/");
    arg.extend_from_slice(&7i32.to_le_bytes());
    arg.push(1);
    match p.provider_dispatch_impl(0, NS_OP_SUBSCRIBE, &arg) {
        ProviderReply::Subscribed { sub, initial } => assert_eq!((sub, initial), (0, true)),
        _ => panic!("not subscribed"),
    }
    let (rev, c) = p.initial_change(0, b"/a/").unwrap();
    assert_eq!((rev, c.kind, c.key), (1, KIND_ADDED, b"/a/1".to_vec()));
    assert!(p.initial_change(0, b"/b/").is_none());
    assert_eq!(p.watchers.notify_change(b"/a/2"), vec![0]);
    assert_eq!(p.watchers.notify_change(b"/b/2"), Vec::<usize>::new());
    assert_eq!(code(p.provider_dispatch_impl(SUB_HANDLE_BASE, NS_OP_CLOSE, &[])), 0);
    assert_eq!(p.watchers.notify_change(b"/a/2"), Vec::<usize>::new());
    assert_eq!(code(p.provider_dispatch_impl(SUB_HANDLE_BASE, NS_OP_CLOSE, &[])), E_INVAL);
}

#[test]
fn a_loss_is_told() {
    let mut w = Watchers::new();
    let i = w.subscribe(b"/", 3).unwrap();
    let event = w.push_to_sub(i, 1, KIND_ADDED, b"/a", b"o").unwrap();
    let (r, _) = decode_record(&event[EVENT_HEADER_SIZE..]).unwrap();
    assert_eq!((r.revision, r.key, r.value), (1, &b"/a"[..], &b"o"[..]));
    w.pushed(i, true);
    assert_eq!((w.sub(i).sequence, w.sub(i).lost_pending), (1, false));
    w.push_to_sub(i, 2, KIND_ADDED, b"/b", b"o").unwrap();
    w.pushed(i, false);
    assert!(w.sub(i).lost_pending);
    let event = w.push_to_sub(i, 3, KIND_ADDED, b"/c", b"o").unwrap();
    let (r, _) = decode_record(&event[EVENT_HEADER_SIZE..]).unwrap();
    assert!(is_lost_sentinel(&r));
    w.pushed(i, true);
    assert_eq!((w.sub(i).sequence, w.sub(i).lost_pending), (2, false));
}

#[test]
fn only_so_many_subscribe() {
    let mut w = Watchers::new();
    for i in 0..NS_SUB_MAX {
        assert_eq!(w.subscribe(b"", 1), Some(i));
    }
    assert_eq!(w.subscribe(b"", 1), None);
    assert!(w.close(2));
    assert!(!w.close(2));
    assert_eq!(w.subscribe(b"", 1), Some(2));
}

#[test]
fn changes_since_a_position() {
    let mut t = PicNamespaceState::<4>::new();
    t.bind(b"", b"/a", b"o1", 0, 1).unwrap();
    t.bind(b"", b"/b", b"o2", 0, 1).unwrap();
    let all = changes_since(&t, b"", 0, 512);
    assert_eq!(&all[..5], &[STATUS_EVENTS, 2, 0, 0, 0][..]);
    let (r, used) = decode_record(&all[5..]).unwrap();
    assert_eq!((r.revision, r.kind, r.key), (1, KIND_ADDED, &b"/a"[..]));
    let (r, _) = decode_record(&all[5 + used..]).unwrap();
    assert_eq!(r.key, b"/b");
    t.tombstone(b"", b"/a", 2).unwrap();
    let some = changes_since(&t, b"", 2, 512);
    assert_eq!(&some[..5], &[STATUS_EVENTS, 1, 0, 0, 0][..]);
    let (r, _) = decode_record(&some[5..]).unwrap();
    assert_eq!((r.kind, r.key, r.value), (KIND_DELETED, &b"/a"[..], &b""[..]));
    assert_eq!(changes_since(&t, b"", 9, 512), vec![STATUS_LOST, 0, 0, 0, 0]);
    assert_eq!(changes_since(&t, b"", 0, 6), vec![STATUS_LOST, 0, 0, 0, 0]);
}

#[test]
fn a_window_of_changes_is_asked_for() {
    let mut p = NamespaceProvider::<4>::new();
    changed(p.provider_dispatch_impl(0, NS_OP_BIND, &bind_arg(b"/a", 0, 0, b"o")));
    let mut arg = sized(b"");
    arg.extend_from_slice(&0u64.to_le_bytes());
    arg.extend_from_slice(&0x1000u64.to_le_bytes());
    arg.extend_from_slice(&256u32.to_le_bytes());
    match p.provider_dispatch_impl(0, NS_OP_CHANGES, &arg) {
        ProviderReply::Window { out_ptr, out, head, prefix, .. } => {
            assert_eq!((out_ptr, head, prefix.len()), (0x1000, 1, 0));
            assert_eq!(out[0], STATUS_EVENTS);
        },
        _ => panic!("no window"),
    }
    arg[10] = 0;
    arg[11] = 0;
    assert_eq!(code(p.provider_dispatch_impl(0, NS_OP_CHANGES, &arg)), E_INVAL);
}

#[test]
fn a_page_has_entries_and_a_cursor() {
    let mut t = NamespaceTable::<4>::new();
    t.bindings.bind(b"", b"/a", b"o", 1, 1).unwrap();
    t.bindings.bind(b"", b"/b", b"o", 2, 1).unwrap();
    let page = ListPage::begin(&t, 0, b"/", 0, 64);
    assert_eq!(page.wants(0), None);
    assert_eq!(page.finish(4, 0), Ok(vec![2, 1, b'/', b'a', 2, 2, b'/', b'b', 0xFF, 0]));
    let page = ListPage::begin(&t, 0, b"/", 0, 10);
    assert_eq!(page.next(4, 0), Some(1));
    assert_eq!(page.finish(4, 0), Ok(vec![2, 1, b'/', b'a', 0xFF, 4, 1, 0, 0, 0]));
    let page = ListPage::begin(&t, 0, b"/", 0, 8);
    assert_eq!(page.finish(4, 0), Err(E_INVAL));
    t.bindings.rename(b"", b"/a", b"/a-longer-name", 2).unwrap();
    let page = ListPage::begin(&t, 0, b"/", 0, 12);
    assert_eq!((page.next(4, 0), page.finish(4, 0)), (Some(0), Err(E_INVAL)));
    let page = ListPage::begin(&t, 0, b"/", 0, 22);
    assert_eq!(page.next(4, 0), Some(1));
    assert_eq!(page.finish(4, 0).unwrap().len(), 22);
    let mut out = Vec::new();
    assert!(list_take(&mut out, &[b'x'; 255], 0, 4));
    assert!(out.is_empty());
}

#[test]
fn pages_that_refuse_lose_and_repeat_nothing() {
    let mut t = NamespaceTable::<8>::new();
    let names: [&[u8]; 5] = [b"/a", b"/bbbb", b"/c", b"/dddddddd", b"/e"];
    for name in names {
        t.bindings.bind(b"", name, b"o", 0, 1).unwrap();
    }
    let mut got: Vec<Vec<u8>> = Vec::new();
    let mut cursor = 0;
    let mut rooms = [10usize, 17, 12, 18, 64, 64].iter();
    loop {
        let page = ListPage::begin(&t, 0, b"", cursor, *rooms.next().unwrap());
        let next = page.next(8, 0);
        if let Ok(out) = page.finish(8, 0) {
            let mut at = 0;
            while out[at] != 0xFF {
                let n = out[at] as usize;
                got.push(out[at + 2..at + 2 + n].to_vec());
                at += 2 + n;
            }
        }
        match next {
            Some(c) => cursor = c,
            None => break,
        }
    }
    assert_eq!(got, names.iter().map(|n| n.to_vec()).collect::<Vec<Vec<u8>>>());
}

#[test]
fn a_cursor_behind_the_table_stays_where_it_is() {
    let t = NamespaceTable::<4>::new();
    let page = ListPage::begin(&t, 0, b"", 7, 64);
    assert_eq!(page.finish(4, 0), Ok(vec![0xFF, 4, 7, 0, 0, 0]));
    assert_eq!(ListPage::begin(&t, 0, b"", 7, 8).finish(4, 0), Err(E_INVAL));
}

#[test]
fn a_listing_of_the_provider() {
    let mut p = NamespaceProvider::<4>::new();
    changed(p.provider_dispatch_impl(0, NS_OP_BIND, &bind_arg(b"/a", 0, 0, b"o")));
    let mut arg = sized(b"");
    arg.extend_from_slice(&sized(b""));
    arg.extend_from_slice(&0x2000u64.to_le_bytes());
    arg.extend_from_slice(&64u32.to_le_bytes());
    match p.provider_dispatch_impl(0, NS_OP_LIST, &arg) {
        ProviderReply::Listing { page, out_ptr, .. } => {
            assert_eq!(out_ptr, 0x2000);
            assert_eq!(page.finish(4, 0), Ok(vec![2, 0, b'/', b'a', 0xFF, 0]));
        },
        _ => panic!("no listing"),
    }
    assert_eq!(code(p.provider_dispatch_impl(0, NS_OP_LIST, &[0, 0])), E_INVAL);
}

#[test]
fn a_replicated_fence_needs_a_proof() {
    assert_eq!(achieved_fence(&None, true, true), Fence::LocalDurable { device_id: 0 });
    assert_eq!(achieved_fence(&Some(PROOF), false, false), Fence::Volatile);
    assert_eq!(
        achieved_fence(&Some(PROOF), true, false),
        Fence::ReplicatedDurable {
            source: [1u8; 16],
            commit_index: 8,
            epoch: 3,
            quorum: 2,
            witness: [2u8; 32]
        }
    );
    let late = CommitProof { term: 1 << 40, ..PROOF };
    assert!(matches!(
        achieved_fence(&Some(late), true, false),
        Fence::ReplicatedDurable { epoch: u32::MAX, .. }
    ));
    assert_eq!(read_fence_out(&[0u8; 9], 0), FenceOut { ptr: 0, cap: 0 });
    let mut a = 5u64.to_le_bytes().to_vec();
    a.extend_from_slice(&[64, 0]);
    assert_eq!(read_fence_out(&a, 0), FenceOut { ptr: 5, cap: 64 });
    assert_eq!(&view_source(b"")[..8], &0xcbf2_9ce4_8422_2325u64.to_le_bytes());
    assert_ne!(view_source(b"a"), view_source(b"b"));
}

fn bind_record(path: &[u8], oid: &[u8]) -> Vec<u8> {
    let mut buf = [0u8; 128];
    let n = encode_bind(&mut buf, b"r", path, oid, 0, 1).unwrap();
    buf[..n].to_vec()
}

fn lookup_record(path: &[u8]) -> Vec<u8> {
    let mut buf = [0u8; 128];
    let n = encode_lookup_req(&mut buf, b"r", path).unwrap();
    buf[..n].to_vec()
}

fn owed(s: &mut NsState<4>) -> Vec<u8> {
    let b = match s.owed() {
        Some(Answer::Bytes(b)) => b.clone(),
        Some(_) => panic!("not bytes"),
        None => Vec::new(),
    };
    s.delivered();
    b
}

#[test]
fn a_request_is_logged_before_it_is_made() {
    let mut s = NsState::<4>::new(true);
    s.set_wal(true, true);
    assert!(s.begin_step());
    assert!(s.wants_input());
    s.refill(&bind_record(b"/a", b"o"));
    assert!(matches!(s.next(), NsNext::Log));
    assert!(matches!(s.next(), NsNext::Wait));
    assert!(matches!(s.logged(AppendState::Pending), NsNext::Wait));
    assert!(s.provider.table.bindings.is_empty());
    assert!(matches!(s.logged(AppendState::Durable), NsNext::Apply));
    assert_eq!(s.search_key(), None);
    s.resolve_staged(None);
    assert_eq!(owed(&mut s), vec![OP_BIND]);
    s.refill(&lookup_record(b"/a"));
    match s.next() {
        NsNext::Read(request) => assert_eq!(s.handle_lookup(&request), None),
        _ => panic!("no read"),
    }
    assert_eq!(owed(&mut s)[0], OP_LOOKUP);
}

#[test]
fn what_cannot_be_logged_is_not_made() {
    let mut s = NsState::<4>::new(true);
    s.set_wal(true, true);
    s.refill(&bind_record(b"/a", b"o"));
    assert!(matches!(s.next(), NsNext::Log));
    assert!(matches!(s.logged(AppendState::Failed), NsNext::Answered));
    assert_eq!(owed(&mut s), vec![NAK]);
    assert!(s.provider.table.bindings.is_empty());
    s.set_wal(true, false);
    s.refill(&bind_record(b"/a", b"o"));
    assert!(matches!(s.next(), NsNext::Answered));
    assert_eq!(owed(&mut s), vec![NAK]);
}

#[test]
fn a_commit_is_answered_once() {
    let mut s = NsState::<4>::new(true);
    s.set_replication_channels(1, 2);
    s.refill(&lookup_record(b"/a"));
    assert!(matches!(s.next(), NsNext::Answered));
    assert_eq!(owed(&mut s), vec![NAK_NOT_READY]);
    assert!(s.wants_committed());
    assert!(matches!(s.drain_committed(Committed::Drained), NsNext::Skipped));
    s.refill(&bind_record(b"/a", b"o"));
    match s.next() {
        NsNext::Propose(EventBuf::Record(record)) => assert_eq!(record, bind_record(b"/a", b"o")),
        _ => panic!("no proposal"),
    }
    s.proposed(true);
    assert!(s.provider.table.bindings.is_empty());
    let inner = bind_record(b"/a", b"o");
    assert!(matches!(s.drain_committed(Committed::Commit { event: LogEvent::Record(&inner), commit: PROOF }), NsNext::Apply));
    assert!(!s.wants_committed());
    s.resolve_staged(None);
    assert_eq!(owed(&mut s), vec![OP_BIND]);
    assert_eq!(s.last_commit(), Some(PROOF));
    let mut buf = [0u8; 64];
    let n = encode_unbind(&mut buf, b"r", b"/a").unwrap();
    assert!(matches!(s.drain_committed(Committed::Commit { event: LogEvent::Record(&buf[..n]), commit: PROOF }), NsNext::Apply));
    s.resolve_staged(None);
    assert!(s.owed().is_none());
    assert!(matches!(s.drain_committed(Committed::Garbage), NsNext::Skipped));
}

#[test]
fn a_refused_proposal_is_answered() {
    let mut s = NsState::<4>::new(true);
    s.set_replication_channels(1, 2);
    s.refill(&bind_record(b"/a", b"o"));
    assert!(matches!(s.next(), NsNext::Propose(_)));
    s.proposed(false);
    assert_eq!(owed(&mut s), vec![NAK]);
}

#[test]
fn bytes_that_begin_no_record_are_answered_once() {
    let mut s = NsState::<4>::new(true);
    s.refill(&[0x77, 0x77]);
    assert!(matches!(s.next(), NsNext::Answered));
    assert_eq!(owed(&mut s), vec![NAK]);
    assert!(matches!(s.next(), NsNext::Skipped));
    assert!(s.owed().is_none());
    assert!(matches!(s.next(), NsNext::Wait));
}

#[test]
fn the_log_is_replayed() {
    let mut s = NsState::<4>::new(true);
    assert!(s.replay(LogEvent::Record(&bind_record(b"/a", b"o")), None));
    assert!(!s.replay(LogEvent::Record(&[0x77]), None));
    s.replay_done(1, 1);
    assert!(s.provider.table.bindings.lookup(b"r", b"/a").is_some());
}

#[test]
fn every_outcome_has_a_reply() {
    assert!(matches!(respond_applied(Ok(Done::Op(OP_UNBIND))), Answer::Bytes(b) if b == [OP_UNBIND]));
    assert!(matches!(respond_applied(Ok(Done::Reserved { held: true })), Answer::Reserved { held: true }));
    assert!(matches!(respond_applied(Ok(Done::Released)), Answer::Released));
    assert!(matches!(respond_applied(Err(ApplyFault::Reserved)), Answer::Bytes(b) if b == [NAK_RESERVED]));
    assert!(matches!(respond_applied(Err(ApplyFault::Rejected)), Answer::Bytes(b) if b == [NAK]));
}

#[test]
fn a_long_commit_is_carried_out_and_answered() {
    let mut s = NsState::<4>::new(true);
    s.set_replication_channels(1, 2);
    let path = [b'p'; 1024];
    let mut buf = [0u8; 1280];
    let n = encode_bind(&mut buf, &[b'r'; 64], &path, &[b'o'; 96], 0, 1).unwrap();
    assert_eq!(n, 1200);
    s.refill(&buf[..n]);
    assert!(matches!(s.next(), NsNext::Propose(EventBuf::Record(record)) if record == &buf[..n]));
    s.proposed(true);
    let event = LogEvent::Record(&buf[..n]);
    assert!(matches!(s.drain_committed(Committed::Commit { event, commit: PROOF }), NsNext::Apply));
    s.resolve_staged(None);
    assert_eq!(owed(&mut s), vec![OP_BIND]);
    assert!(s.provider.table.bindings.lookup(&[b'r'; 64], &path).is_some());
}

#[test]
fn a_record_longer_than_what_is_held_ahead_is_read_to_its_end() {
    let mut s = NsState::<4>::new(true);
    let mut buf = [0u8; 2200];
    let n = encode_rename(&mut buf, b"r", &[b'a'; 1024], &[b'b'; 1024], 2).unwrap();
    let mut at = 0;
    while s.wants_input() && at < n {
        let end = n.min(at + 256);
        s.refill(&buf[at..end]);
        at = end;
    }
    assert_eq!(at, n);
    assert!(matches!(s.next(), NsNext::Apply));
    s.resolve_staged(None);
    assert_eq!(owed(&mut s), vec![NAK]);
}

#[test]
fn reservations_take_effect_in_the_order_of_the_log() {
    let mut s = NsState::<4>::new(true);
    s.set_wal(true, true);
    s.refill(&[0xE0, b'o']);
    assert_eq!(s.pending(), &[0xE0, b'o'][..]);
    assert!(matches!(s.take_event(2, LogEvent::Reserve(b"o")), NsNext::Log));
    assert!(matches!(s.staged(), Some(EventBuf::Reserve(id)) if id == b"o"));
    assert_eq!(s.search_key(), None);
    assert!(matches!(s.logged(AppendState::Durable), NsNext::Apply));
    s.resolve_staged(None);
    assert!(matches!(s.owed(), Some(Answer::Reserved { held: true })));
    s.delivered();
    s.refill(&bind_record(b"/a", b"o"));
    assert!(matches!(s.next(), NsNext::Log));
    s.logged(AppendState::Durable);
    s.resolve_staged(None);
    assert_eq!(owed(&mut s), vec![NAK_RESERVED]);
    assert!(matches!(s.take_event(0, LogEvent::Release(b"o")), NsNext::Log));
    s.logged(AppendState::Durable);
    s.resolve_staged(None);
    assert!(matches!(s.owed(), Some(Answer::Released)));
    s.delivered();
    s.begin_step();
    s.refill(&bind_record(b"/a", b"o"));
    assert!(matches!(s.next(), NsNext::Log));
    s.logged(AppendState::Durable);
    s.resolve_staged(None);
    assert_eq!(owed(&mut s), vec![OP_BIND]);
}

#[test]
fn copies_that_went_through_the_same_events_refuse_alike() {
    let events = [
        LogEvent::Reserve(b"1"),
        LogEvent::Reserve(b"2"),
        LogEvent::Reserve(b"3"),
        LogEvent::Reserve(b"4"),
        LogEvent::Reserve(b"5"),
        LogEvent::Release(b"2"),
    ];
    let mut a = NsState::<4>::new(true);
    let mut b = NsState::<4>::new(true);
    b.set_replication_channels(1, 2);
    assert!(b.replay(LogEvent::Record(&bind_record(b"/x", b"x")), None));
    for event in events {
        assert!(a.replay(event, None));
        assert!(matches!(b.drain_committed(Committed::Commit { event, commit: PROOF }), NsNext::Apply));
        b.resolve_staged(None);
        assert!(b.owed().is_none());
    }
    for id in [&b"1"[..], b"2", b"3", b"4", b"5"] {
        assert_eq!(a.provider.table.is_reserved(id), b.provider.table.is_reserved(id));
        assert_eq!(
            a.replay(LogEvent::Record(&bind_record(b"/a", id)), None),
            b.replay(LogEvent::Record(&bind_record(b"/a", id)), None)
        );
    }
    assert!(!a.provider.table.is_reserved(b"5") && !a.provider.table.is_reserved(b"2"));
}

#[test]
fn the_fence_is_asked_for() {
    let none: Option<CommitProof> = None;
    assert_eq!(fence_query(7, 9, Some(64), 64, &none, false, true), FenceCall::Other);
    assert_eq!(fence_query(9, 9, Some(63), 64, &none, false, true), FenceCall::Code(E_INVAL));
    assert_eq!(fence_query(9, 9, None, 64, &none, false, true), FenceCall::Code(E_INVAL));
    assert_eq!(
        fence_query(9, 9, Some(64), 64, &none, true, true),
        FenceCall::Encode(Fence::LocalDurable { device_id: 0 })
    );
    assert!(matches!(fence_query(9, 9, Some(64), 64, &Some(PROOF), true, false),
        FenceCall::Encode(Fence::ReplicatedDurable { commit_index: 8, epoch: 3, .. })));
    assert!(matches!(fence_answer(Some(vec![1, 2])), ProviderReply::Bytes(b) if b == [1, 2]));
    assert!(matches!(fence_answer(None), ProviderReply::Code(E_INVAL)));
}

#[test]
fn an_empty_path_is_among_the_changes() {
    let mut t = PicNamespaceState::<4>::new();
    t.bind(b"", b"", b"o", 0, 1).unwrap();
    let answer = changes_since(&t, b"", 0, 256);
    assert_eq!(answer[0], STATUS_EVENTS);
    let (rec, _) = decode_record(&answer[5..]).unwrap();
    assert_eq!((rec.key, rec.value), (&b""[..], &b"o"[..]));
}
