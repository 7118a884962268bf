use fork_multi_test::fork_storage::ForkedStorage;
use fork_multi_test::fork_storage::IterError;
use fork_multi_test::fork_storage::LocalProbe;
use fork_multi_test::fork_storage::NextStep;
use fork_multi_test::fork_storage::RemotePager;
use fork_multi_test::model::ChainDescriptor;

fn chain() -> ChainDescriptor {
    ChainDescriptor {
        chain_id: b"juno-1".to_vec(),
        grpc_url: b"http://grpc.example:9090".to_vec(),
        bech32_prefix: b"juno".to_vec(),
    }
}

fn fork(init: Vec<(Vec<u8>, Vec<u8>)>) -> ForkedStorage {
    ForkedStorage::new(chain(), b"contractX".to_vec(), init)
}

fn probe_value(p: LocalProbe) -> Option<Vec<u8>> {
    match p {
        LocalProbe::Present(v) => Some(v),
        _ => None,
    }
}

#[test]
fn set_then_get_returns_written_value() {
    let mut fs = fork(vec![]);
    fs.set(b"count", b"1");
    let probe = fs.get_local(b"count");
    // the overlay answers; whatever the remote chain would say is ignored
    let got = ForkedStorage::resolve_get(probe, Some(b"99".to_vec()));
    assert_eq!(got, Some(b"1".to_vec()));
}

#[test]
fn overlay_wins_over_remote_for_same_key() {
    // contract "X" writes count = 1 locally; the remote chain holds 99
    let mut fs = fork(vec![]);
    fs.set(b"count", b"1");
    let probe = fs.get_local(b"count");
    assert_eq!(probe_value(probe), Some(b"1".to_vec()));
    let remote_answer = Some(b"99".to_vec());
    let got = ForkedStorage::resolve_get(fs.get_local(b"count"), remote_answer);
    assert_eq!(got, Some(b"1".to_vec()));
}

#[test]
fn remove_then_get_is_absent_whatever_remote_holds() {
    let mut fs = fork(vec![(b"count".to_vec(), b"1".to_vec())]);
    fs.remove(b"count");
    let got = ForkedStorage::resolve_get(fs.get_local(b"count"), Some(b"99".to_vec()));
    assert_eq!(got, None);
}

#[test]
fn tombstone_suppresses_remote_fallback() {
    let mut fs = fork(vec![]);
    fs.remove(b"gone");
    match fs.get_local(b"gone") {
        LocalProbe::Removed => {}
        _ => panic!("a tombstoned key must be reported removed"),
    }
    assert_eq!(
        ForkedStorage::resolve_get(fs.get_local(b"gone"), Some(b"remote".to_vec())),
        None
    );
}

#[test]
fn unknown_key_takes_remote_value() {
    let fs = fork(vec![]);
    match fs.get_local(b"missing") {
        LocalProbe::Unknown => {}
        _ => panic!("an unknown key must defer to the remote chain"),
    }
    assert_eq!(
        ForkedStorage::resolve_get(fs.get_local(b"missing"), Some(b"7".to_vec())),
        Some(b"7".to_vec())
    );
    // a failed remote point read degrades to absent
    assert_eq!(ForkedStorage::resolve_get(fs.get_local(b"missing"), None), None);
}

#[test]
fn set_clears_tombstone() {
    let mut fs = fork(vec![]);
    fs.remove(b"k");
    fs.set(b"k", b"v");
    assert_eq!(probe_value(fs.get_local(b"k")), Some(b"v".to_vec()));
}

fn scan_all(
    fs: &mut ForkedStorage,
    remote: Vec<(Vec<u8>, Vec<u8>)>,
    page_size: usize,
    descending: bool,
) -> Vec<(Vec<u8>, Vec<u8>)> {
    let id = fs.scan(None, None, descending);
    let mut pager = RemotePager::new(remote, page_size);
    fs.drain_scan(id, &mut pager)
}

#[test]
fn merge_scan_equals_sorted_merge_of_both_sides() {
    let mut fs = fork(vec![]);
    fs.set(&[1u8], b"l1");
    fs.set(&[3u8], b"l3");
    fs.set(&[5u8], b"l5");
    let remote = vec![
        (vec![2u8], b"r2".to_vec()),
        (vec![3u8], b"r3".to_vec()),
        (vec![4u8], b"r4".to_vec()),
    ];
    let merged = scan_all(&mut fs, remote, 2, false);
    let keys: Vec<Vec<u8>> = merged.iter().map(|e| e.0.clone()).collect();
    assert_eq!(keys, vec![vec![1u8], vec![2u8], vec![3u8], vec![4u8], vec![5u8]]);
    // the shared key appears once, with the local value
    assert_eq!(merged[2].1, b"l3".to_vec());
}

#[test]
fn merge_scan_is_independent_of_remote_page_size() {
    let remote = vec![
        (vec![2u8], b"r2".to_vec()),
        (vec![4u8], b"r4".to_vec()),
        (vec![6u8], b"r6".to_vec()),
        (vec![8u8], b"r8".to_vec()),
    ];
    let mut results = Vec::new();
    for page_size in [1usize, 2, 3, 10] {
        let mut fs = fork(vec![]);
        fs.set(&[3u8], b"l3");
        fs.set(&[7u8], b"l7");
        results.push(scan_all(&mut fs, remote.clone(), page_size, false));
    }
    assert_eq!(results[0], results[1]);
    assert_eq!(results[1], results[2]);
    assert_eq!(results[2], results[3]);
    let keys: Vec<Vec<u8>> = results[0].iter().map(|e| e.0.clone()).collect();
    assert_eq!(
        keys,
        vec![vec![2u8], vec![3u8], vec![4u8], vec![6u8], vec![7u8], vec![8u8]]
    );
}

#[test]
fn descending_scan_is_independent_of_remote_page_size() {
    // a descending scan over a fixed range gives one final ordered sequence,
    // whatever page size the transport uses internally
    let remote = vec![
        (vec![9u8], b"r9".to_vec()),
        (vec![6u8], b"r6".to_vec()),
        (vec![2u8], b"r2".to_vec()),
    ];
    let mut first: Option<Vec<(Vec<u8>, Vec<u8>)>> = None;
    for page_size in [1usize, 2, 7] {
        let mut fs = fork(vec![]);
        fs.set(&[4u8], b"l4");
        fs.set(&[8u8], b"l8");
        let got = scan_all(&mut fs, remote.clone(), page_size, true);
        let keys: Vec<Vec<u8>> = got.iter().map(|e| e.0.clone()).collect();
        assert_eq!(
            keys,
            vec![vec![9u8], vec![8u8], vec![6u8], vec![4u8], vec![2u8]]
        );
        if let Some(prev) = &first {
            assert_eq!(prev, &got);
        } else {
            first = Some(got);
        }
    }
}

#[test]
fn merge_compares_keys_numerically_not_lexicographically() {
    // [1, 0] denotes 256 and [2] denotes 2: the numeric order puts [2] first,
    // though plain byte order would not
    let mut fs = fork(vec![]);
    fs.set(&[1u8, 0u8], b"big");
    let remote = vec![(vec![2u8], b"small".to_vec())];
    let merged = scan_all(&mut fs, remote, 5, false);
    let keys: Vec<Vec<u8>> = merged.iter().map(|e| e.0.clone()).collect();
    assert_eq!(keys, vec![vec![2u8], vec![1u8, 0u8]]);
}

#[test]
fn unknown_iterator_id_fails() {
    let mut fs = fork(vec![]);
    match fs.next(42) {
        Err(IterError::IteratorNotFound(id)) => assert_eq!(id, 42),
        _ => panic!("an unknown iterator id must fail"),
    }
}

#[test]
fn fresh_iterator_first_asks_for_a_page() {
    let mut fs = fork(vec![]);
    fs.set(b"a", b"1");
    let id = fs.scan(None, None, false);
    match fs.next(id) {
        Ok(NextStep::NeedPage(req)) => {
            assert_eq!(req.limit, 5);
            assert!(!req.reverse);
        }
        _ => panic!("a fresh iterator must first fetch a remote page"),
    }
    // ending the remote side lets the overlay drain
    fs.feed_page(id, vec![], None).unwrap();
    match fs.next(id) {
        Ok(NextStep::Emit(k, v)) => {
            assert_eq!(k, b"a".to_vec());
            assert_eq!(v, b"1".to_vec());
        }
        _ => panic!("the overlay entry must come out"),
    }
    match fs.next(id) {
        Ok(NextStep::Done) => {}
        _ => panic!("the scan must end"),
    }
}

#[test]
fn scan_respects_range_bounds() {
    let mut fs = fork(vec![]);
    fs.set(&[1u8], b"1");
    fs.set(&[2u8], b"2");
    fs.set(&[3u8], b"3");
    let id = fs.scan(Some(&[2u8]), Some(&[3u8]), false);
    let mut pager = RemotePager::new(vec![], 5);
    let got = fs.drain_scan(id, &mut pager);
    assert_eq!(got.len(), 1);
    assert_eq!(got[0].0, vec![2u8]);
}

#[test]
fn storage_changes_report_overlay_and_tombstones() {
    let mut fs = fork(vec![]);
    fs.set(b"kept", b"v");
    fs.remove(b"gone");
    let changes = fs.changes();
    assert_eq!(changes.current_keys, vec![(b"kept".to_vec(), b"v".to_vec())]);
    assert_eq!(changes.removed_keys, vec![b"gone".to_vec()]);
}
