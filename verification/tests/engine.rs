use ytext::delta::{apply_delta_bytes, DeltaEntry};
use ytext::errors::YTextError;
use ytext::ops::{InsertRecord, TextOp};
use ytext::text::{YText, YTransaction};

fn integrated(peer: u64, init: &[u8]) -> YText {
    let mut t = YText::new(Some(init.to_vec()));
    t.integrate(peer).unwrap();
    t
}

#[test]
fn prelim_starts_preliminary() {
    let t = YText::new(Some(b"abc".to_vec()));
    assert!(t.prelim());
    assert_eq!(t.length(), 3);
    let txn = YTransaction::new();
    assert_eq!(t.to_string(&txn), b"abc".to_vec());
    assert_eq!(t.to_json(&txn), b"abc".to_vec());
}

#[test]
fn prelim_editing() {
    let mut t = YText::new(None);
    let mut txn = YTransaction::new();
    t.push(&mut txn, &b"world".to_vec()).unwrap();
    t.insert(&mut txn, 0, &b"hello ".to_vec()).unwrap();
    assert_eq!(t.to_string(&txn), b"hello world".to_vec());
    t.delete(&mut txn, 5, 6).unwrap();
    assert_eq!(t.to_string(&txn), b"hello".to_vec());
    assert_eq!(t.length(), 5);
    assert!(txn.records.is_empty());
}

#[test]
fn integrated_insert_and_read() {
    let mut t = integrated(1, b"");
    let mut txn = YTransaction::new();
    t.insert(&mut txn, 0, &b"hello".to_vec()).unwrap();
    assert_eq!(t.to_string(&txn), b"hello".to_vec());
    t.insert(&mut txn, 2, &b"XY".to_vec()).unwrap();
    assert_eq!(t.to_string(&txn), b"heXYllo".to_vec());
    assert_eq!(t.length(), 7);
}

#[test]
fn hello_delete_scenario() {
    // Insert "hello" at 0, then delete the range [1, 3): the text is "hlo",
    // the length 3, and the delta reconciles the pre-image with the result.
    let mut t = integrated(7, b"");
    let mut txn = YTransaction::new();
    t.insert(&mut txn, 0, &b"hello".to_vec()).unwrap();
    t.delete(&mut txn, 1, 2).unwrap();
    assert_eq!(t.to_string(&txn), b"hlo".to_vec());
    assert_eq!(t.length(), 3);
    let ev = txn.commit(&mut t);
    let replayed = apply_delta_bytes(&Vec::new(), ev.delta()).unwrap();
    assert_eq!(replayed, b"hlo".to_vec());
    assert_eq!(ev.delta(), &vec![DeltaEntry::Insert(b"hlo".to_vec())]);
    assert_eq!(ev.target(), &b"hlo".to_vec());
    assert!(ev.path().is_empty());
}

#[test]
fn delta_with_retains_round_trips() {
    let mut t = integrated(3, b"hlo");
    let mut txn = YTransaction::new();
    t.delete(&mut txn, 1, 1).unwrap();
    t.push(&mut txn, &b"!".to_vec()).unwrap();
    let pre = b"hlo".to_vec();
    let ev = txn.commit(&mut t);
    let post = apply_delta_bytes(&pre, ev.delta()).unwrap();
    assert_eq!(post, b"ho!".to_vec());
    assert_eq!(post, t.to_string(&YTransaction::new()));
}

#[test]
fn delta_applier_rejects_short_preimage() {
    let d = vec![DeltaEntry::Retain(5)];
    assert!(apply_delta_bytes(&b"ab".to_vec(), &d).is_none());
    let d = vec![DeltaEntry::Delete(3)];
    assert!(apply_delta_bytes(&b"ab".to_vec(), &d).is_none());
}

#[test]
fn length_matches_to_string_after_edit_sequences() {
    let mut t = integrated(2, b"");
    let mut txn = YTransaction::new();
    t.push(&mut txn, &b"abc".to_vec()).unwrap();
    t.insert(&mut txn, 1, &b"12345".to_vec()).unwrap();
    t.delete(&mut txn, 2, 3).unwrap();
    t.push(&mut txn, &b"zz".to_vec()).unwrap();
    let s = t.to_string(&txn);
    assert_eq!(t.length() as usize, s.len());
    txn.commit(&mut t);
    let s = t.to_string(&YTransaction::new());
    assert_eq!(t.length() as usize, s.len());
}

#[test]
fn commit_keeps_text_and_squashes_chunks() {
    // Squash transparency: consecutive same-peer inserts merge into one
    // chunk at commit, and neither the text nor later reads change.
    let mut t = integrated(4, b"");
    let mut txn = YTransaction::new();
    t.push(&mut txn, &b"a".to_vec()).unwrap();
    t.push(&mut txn, &b"b".to_vec()).unwrap();
    t.push(&mut txn, &b"c".to_vec()).unwrap();
    let before = t.to_string(&txn);
    txn.commit(&mut t);
    let after = t.to_string(&YTransaction::new());
    assert_eq!(before, after);
    assert_eq!(after, b"abc".to_vec());
    match &t {
        YText::Integrated(core) => assert_eq!(core.chunks.len(), 1),
        YText::Prelim(_) => panic!("value should be integrated"),
    }
}

#[test]
fn concurrent_head_inserts_converge() {
    // Peer A inserts "ab" at 0; peer B concurrently inserts "cd" at 0.
    // After exchanging the operations both peers show the same text.
    let mut a = integrated(1, b"");
    let mut txn_a = YTransaction::new();
    a.insert(&mut txn_a, 0, &b"ab".to_vec()).unwrap();
    txn_a.commit(&mut a);

    let mut b = integrated(2, b"");
    let mut txn_b = YTransaction::new();
    b.insert(&mut txn_b, 0, &b"cd".to_vec()).unwrap();
    txn_b.commit(&mut b);

    for op in &txn_b.records {
        a.apply_remote(op).unwrap();
    }
    for op in &txn_a.records {
        b.apply_remote(op).unwrap();
    }
    let sa = a.to_string(&YTransaction::new());
    let sb = b.to_string(&YTransaction::new());
    assert_eq!(sa, sb);
    // Peer 1 orders before peer 2, so its chunk sits closer to the left.
    assert_eq!(sa, b"abcd".to_vec());
}

#[test]
fn concurrent_inserts_converge_with_third_peer() {
    // A third peer receives the same two concurrent operations in the
    // opposite order and still agrees.
    let mut a = integrated(1, b"");
    let mut txn_a = YTransaction::new();
    a.insert(&mut txn_a, 0, &b"ab".to_vec()).unwrap();
    txn_a.commit(&mut a);

    let mut b = integrated(2, b"");
    let mut txn_b = YTransaction::new();
    b.insert(&mut txn_b, 0, &b"cd".to_vec()).unwrap();
    txn_b.commit(&mut b);

    let mut c1 = integrated(3, b"");
    let mut c2 = integrated(4, b"");
    for op in txn_a.records.iter().chain(txn_b.records.iter()) {
        c1.apply_remote(op).unwrap();
    }
    for op in txn_b.records.iter().chain(txn_a.records.iter()) {
        c2.apply_remote(op).unwrap();
    }
    assert_eq!(
        c1.to_string(&YTransaction::new()),
        c2.to_string(&YTransaction::new())
    );
}

#[test]
fn concurrent_tail_inserts_converge() {
    // Both peers append at the end of the same shared text concurrently:
    // the two new chunks claim the same left neighbour, and the resolver's
    // (peer, clock) order decides who sits closer to it — identically on
    // both sides.
    let mut a = integrated(1, b"");
    let mut txn0 = YTransaction::new();
    a.insert(&mut txn0, 0, &b"base".to_vec()).unwrap();
    txn0.commit(&mut a);
    let mut b = integrated(2, b"");
    for op in &txn0.records {
        b.apply_remote(op).unwrap();
    }

    let mut txn_a = YTransaction::new();
    a.push(&mut txn_a, &b"XX".to_vec()).unwrap();
    txn_a.commit(&mut a);
    let mut txn_b = YTransaction::new();
    b.push(&mut txn_b, &b"yy".to_vec()).unwrap();
    txn_b.commit(&mut b);

    for op in &txn_b.records {
        a.apply_remote(op).unwrap();
    }
    for op in &txn_a.records {
        b.apply_remote(op).unwrap();
    }
    let sa = a.to_string(&YTransaction::new());
    let sb = b.to_string(&YTransaction::new());
    assert_eq!(sa, sb);
    assert_eq!(sa, b"baseXXyy".to_vec());
}

#[test]
fn remote_insert_into_foreign_chunk() {
    // B inserts into the middle of a chunk A created; replaying the record
    // on A splits A's chunk at the same spot.
    let mut a = integrated(1, b"");
    let mut txn_a = YTransaction::new();
    a.insert(&mut txn_a, 0, &b"abcd".to_vec()).unwrap();
    txn_a.commit(&mut a);

    let mut b = integrated(2, b"");
    for op in &txn_a.records {
        b.apply_remote(op).unwrap();
    }
    let mut txn_b = YTransaction::new();
    b.insert(&mut txn_b, 2, &b"XY".to_vec()).unwrap();
    txn_b.commit(&mut b);
    assert_eq!(b.to_string(&YTransaction::new()), b"abXYcd".to_vec());

    for op in &txn_b.records {
        a.apply_remote(op).unwrap();
    }
    assert_eq!(a.to_string(&YTransaction::new()), b"abXYcd".to_vec());
}

#[test]
fn repeated_delete_is_a_no_op() {
    // Deleting an overlapping range locally and then replaying the same
    // delete records (as a remote peer would) leaves the state of a single
    // delete: deletes are idempotent.
    let mut t = integrated(5, b"abcdef");
    let mut txn = YTransaction::new();
    t.delete(&mut txn, 1, 3).unwrap();
    assert_eq!(t.to_string(&txn), b"aef".to_vec());
    txn.commit(&mut t);
    for op in &txn.records {
        t.apply_remote(op).unwrap();
        t.apply_remote(op).unwrap();
    }
    assert_eq!(t.to_string(&YTransaction::new()), b"aef".to_vec());
    assert_eq!(t.length(), 3);
}

#[test]
fn concurrent_overlapping_deletes_converge() {
    // Two peers delete overlapping ranges concurrently; both end up with
    // the union deleted, whatever order the records arrive in.
    let mut a = integrated(1, b"");
    let mut txn0 = YTransaction::new();
    a.insert(&mut txn0, 0, &b"abcdef".to_vec()).unwrap();
    txn0.commit(&mut a);
    let mut b = integrated(2, b"");
    for op in &txn0.records {
        b.apply_remote(op).unwrap();
    }

    let mut txn_a = YTransaction::new();
    a.delete(&mut txn_a, 1, 3).unwrap(); // deletes "bcd"
    txn_a.commit(&mut a);
    let mut txn_b = YTransaction::new();
    b.delete(&mut txn_b, 2, 3).unwrap(); // deletes "cde"
    txn_b.commit(&mut b);

    for op in &txn_b.records {
        a.apply_remote(op).unwrap();
    }
    for op in &txn_a.records {
        b.apply_remote(op).unwrap();
    }
    let sa = a.to_string(&YTransaction::new());
    let sb = b.to_string(&YTransaction::new());
    assert_eq!(sa, sb);
    assert_eq!(sa, b"af".to_vec());
}

#[test]
fn double_integration_fails_and_keeps_state() {
    let mut t = YText::new(Some(b"x".to_vec()));
    assert!(t.integrate(1).is_ok());
    assert!(!t.prelim());
    assert_eq!(t.integrate(2), Err(YTextError::State));
    assert!(!t.prelim());
    assert_eq!(t.to_string(&YTransaction::new()), b"x".to_vec());
}

#[test]
fn observe_on_prelim_is_unsupported() {
    let mut t = YText::new(Some(b"x".to_vec()));
    match t.observe() {
        Err(YTextError::Unsupported) => {}
        _ => panic!("observing a preliminary value must fail"),
    }
    // After integration, registration succeeds and ids are distinct.
    t.integrate(9).unwrap();
    let o1 = t.observe().unwrap();
    let o2 = t.observe().unwrap();
    assert_ne!(o1.id, o2.id);
}

#[test]
fn out_of_range_edits_are_rejected() {
    let mut t = integrated(1, b"abc");
    let mut txn = YTransaction::new();
    assert_eq!(
        t.insert(&mut txn, 4, &b"x".to_vec()),
        Err(YTextError::Range)
    );
    assert_eq!(t.delete(&mut txn, 2, 2), Err(YTextError::Range));
    assert_eq!(t.to_string(&txn), b"abc".to_vec());
    assert_eq!(t.length(), 3);

    let mut p = YText::new(Some(b"abc".to_vec()));
    assert_eq!(
        p.insert(&mut txn, 4, &b"x".to_vec()),
        Err(YTextError::Range)
    );
    assert_eq!(p.delete(&mut txn, 1, 3), Err(YTextError::Range));
    assert_eq!(p.to_string(&txn), b"abc".to_vec());
}

#[test]
fn remote_op_on_prelim_is_unsupported() {
    let mut t = YText::new(None);
    let op = TextOp::Insert(InsertRecord {
        peer: 9,
        clock: 0,
        content: b"x".to_vec(),
        left_origin: None,
        right_origin: None,
    });
    assert_eq!(t.apply_remote(&op), Err(YTextError::Unsupported));
}

#[test]
fn unknown_left_origin_is_a_merge_error() {
    let mut t = integrated(1, b"abc");
    let op = TextOp::Insert(InsertRecord {
        peer: 9,
        clock: 50,
        content: b"x".to_vec(),
        left_origin: Some((42, 7)),
        right_origin: None,
    });
    assert_eq!(t.apply_remote(&op), Err(YTextError::Merge));
    assert_eq!(t.to_string(&YTransaction::new()), b"abc".to_vec());
}

#[test]
fn empty_insert_changes_nothing() {
    let mut t = integrated(1, b"ab");
    let mut txn = YTransaction::new();
    t.insert(&mut txn, 1, &Vec::new()).unwrap();
    assert_eq!(t.to_string(&txn), b"ab".to_vec());
    assert!(txn.records.is_empty());
}
