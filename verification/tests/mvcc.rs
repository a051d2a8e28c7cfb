use spiral::mvcc::{
    check_visibility, restore_offset, visibility_after_snapshot, PendingWrites, SlotKey,
    SnapshotKind, VisibilityStep,
};

fn key(blkno: u32, posid: u16) -> SlotKey {
    SlotKey { rel_oid: 16384, blkno, posid }
}

#[test]
fn first_write_keeps_the_undo_image() {
    let mut p = PendingWrites::new();
    p.record_write(key(0, 1), 100, 1.5f64.to_bits());
    p.record_write(key(0, 1), 100, 2.5f64.to_bits());
    p.record_write(key(0, 1), 200, 3.5f64.to_bits());
    assert_eq!(p.writer_of(key(0, 1)), Some(100));
    let restored = p.finish_transaction(100, true);
    assert_eq!(restored, vec![(key(0, 1), 1.5f64.to_bits())]);
    assert_eq!(p.writer_of(key(0, 1)), None);
}

#[test]
fn commit_drops_without_restoring() {
    let mut p = PendingWrites::new();
    p.record_write(key(0, 1), 100, 7);
    p.record_write(key(0, 2), 101, 8);
    assert!(p.finish_transaction(100, false).is_empty());
    assert_eq!(p.writer_of(key(0, 1)), None);
    assert_eq!(p.writer_of(key(0, 2)), Some(101));
}

#[test]
fn abort_restores_only_its_own_writes() {
    let mut p = PendingWrites::new();
    p.record_write(key(1, 1), 7, 11);
    p.record_write(key(1, 2), 8, 12);
    p.record_write(key(1, 3), 7, 13);
    let mut r = p.finish_transaction(7, true);
    r.sort_by_key(|(k, _)| k.posid);
    assert_eq!(r, vec![(key(1, 1), 11), (key(1, 3), 13)]);
    assert_eq!(p.writer_of(key(1, 2)), Some(8));
    assert_eq!(p.writer_of(key(1, 3)), None);
}

#[test]
fn no_transaction_id_changes_nothing() {
    let mut p = PendingWrites::new();
    p.record_write(key(2, 1), 0, 5);
    assert!(p.finish_transaction(0, true).is_empty());
    assert_eq!(p.writer_of(key(2, 1)), Some(0));
}

#[test]
fn visibility_steps() {
    let mut p = PendingWrites::new();
    p.record_write(key(3, 4), 55, 0);
    assert_eq!(check_visibility(&p, key(3, 4), None), VisibilityStep::Decided(None));
    assert_eq!(check_visibility(&p, key(3, 4), Some(SnapshotKind::Any)), VisibilityStep::Decided(Some(true)));
    assert_eq!(check_visibility(&p, key(3, 4), Some(SnapshotKind::Other)), VisibilityStep::Decided(None));
    assert_eq!(check_visibility(&p, key(3, 4), Some(SnapshotKind::Mvcc)), VisibilityStep::AskSnapshot(55));
    assert_eq!(check_visibility(&p, key(3, 4), Some(SnapshotKind::HistoricMvcc)), VisibilityStep::AskSnapshot(55));
    assert_eq!(check_visibility(&p, key(3, 5), Some(SnapshotKind::Mvcc)), VisibilityStep::Decided(None));
    assert_eq!(visibility_after_snapshot(true), Some(false));
    assert_eq!(visibility_after_snapshot(false), None);
}

#[test]
fn restore_offsets() {
    assert_eq!(restore_offset(1), 24);
    assert_eq!(restore_offset(3), 40);
}
