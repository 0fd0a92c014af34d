use fuselog::prune::prune_log;
use fuselog::statediff::{StateDiffAction, StateDiffLog};

#[test]
fn chmod_collapse_keeps_last() {
    let mut log = StateDiffLog {
        fid_map: vec![(1, b"f".to_vec())],
        actions: vec![
            StateDiffAction::Chmod { fid: 1, mode: 0o600 },
            StateDiffAction::Chmod { fid: 1, mode: 0o640 },
            StateDiffAction::Chmod { fid: 1, mode: 0o644 },
        ],
    };
    prune_log(&mut log);
    assert_eq!(log.actions.len(), 1);
    assert!(matches!(&log.actions[0], StateDiffAction::Chmod { fid: 1, mode: 0o644 }));
    assert_eq!(log.fid_map, vec![(1, b"f".to_vec())]);
}

#[test]
fn chown_collapse_keeps_last() {
    let mut log = StateDiffLog {
        fid_map: vec![(1, b"f".to_vec())],
        actions: vec![
            StateDiffAction::Chown { fid: 1, uid: 1, gid: 1 },
            StateDiffAction::Chown { fid: 1, uid: 2, gid: 2 },
        ],
    };
    prune_log(&mut log);
    assert_eq!(log.actions.len(), 1);
    assert!(matches!(&log.actions[0], StateDiffAction::Chown { fid: 1, uid: 2, gid: 2 }));
}

#[test]
fn create_write_unlink_purges_everything() {
    let mut log = StateDiffLog {
        fid_map: vec![(1, b"tmp".to_vec())],
        actions: vec![
            StateDiffAction::Create { fid: 1, uid: 0, gid: 0, mode: 0o644 },
            StateDiffAction::Write { fid: 1, offset: 0, data: vec![7u8; 1024] },
            StateDiffAction::Unlink { fid: 1 },
        ],
    };
    prune_log(&mut log);
    assert!(log.actions.is_empty());
    assert!(log.fid_map.is_empty());
}

#[test]
fn mkdir_rmdir_purged_but_neighbour_kept() {
    let mut log = StateDiffLog {
        fid_map: vec![(1, b"d".to_vec()), (2, b"keep".to_vec())],
        actions: vec![
            StateDiffAction::Mkdir { fid: 1 },
            StateDiffAction::Write { fid: 2, offset: 0, data: b"x".to_vec() },
            StateDiffAction::Rmdir { fid: 1 },
        ],
    };
    prune_log(&mut log);
    assert_eq!(log.actions.len(), 1);
    assert!(matches!(&log.actions[1 - 1], StateDiffAction::Write { fid: 2, .. }));
    assert_eq!(log.fid_map, vec![(2, b"keep".to_vec())]);
}

#[test]
fn writes_and_truncates_of_surviving_fids_are_never_dropped() {
    let mut log = StateDiffLog {
        fid_map: vec![(1, b"f".to_vec())],
        actions: vec![
            StateDiffAction::Write { fid: 1, offset: 0, data: b"a".to_vec() },
            StateDiffAction::Write { fid: 1, offset: 1, data: b"b".to_vec() },
            StateDiffAction::Truncate { fid: 1, size: 1 },
        ],
    };
    prune_log(&mut log);
    assert_eq!(log.actions.len(), 3);
}

#[test]
fn deletion_without_creation_is_kept() {
    let mut log = StateDiffLog {
        fid_map: vec![(1, b"pre".to_vec())],
        actions: vec![StateDiffAction::Unlink { fid: 1 }],
    };
    prune_log(&mut log);
    assert_eq!(log.actions.len(), 1);
    assert!(matches!(&log.actions[0], StateDiffAction::Unlink { fid: 1 }));
    assert_eq!(log.fid_map, vec![(1, b"pre".to_vec())]);
}

#[test]
fn fid_table_keeps_only_referenced_fids() {
    let mut log = StateDiffLog {
        fid_map: vec![(1, b"a".to_vec()), (2, b"b".to_vec()), (3, b"c".to_vec())],
        actions: vec![StateDiffAction::Mkdir { fid: 2 }],
    };
    prune_log(&mut log);
    assert_eq!(log.fid_map, vec![(2, b"b".to_vec())]);
    assert_eq!(log.actions.len(), 1);
}

#[test]
fn empty_actions_clear_stale_table() {
    let mut log = StateDiffLog {
        fid_map: vec![(1, b"stale".to_vec())],
        actions: vec![],
    };
    prune_log(&mut log);
    assert!(log.actions.is_empty());
    assert!(log.fid_map.is_empty());
}

fn mixed_log() -> StateDiffLog {
    StateDiffLog {
        fid_map: vec![
            (1, b"a".to_vec()),
            (2, b"b".to_vec()),
            (3, b"tmp".to_vec()),
        ],
        actions: vec![
            StateDiffAction::Chmod { fid: 1, mode: 0o600 },
            StateDiffAction::Create { fid: 3, uid: 0, gid: 0, mode: 0o644 },
            StateDiffAction::Write { fid: 2, offset: 0, data: b"hi".to_vec() },
            StateDiffAction::Chmod { fid: 1, mode: 0o644 },
            StateDiffAction::Unlink { fid: 3 },
            StateDiffAction::Chown { fid: 2, uid: 9, gid: 9 },
        ],
    }
}

#[test]
fn prune_is_idempotent_on_a_mixed_log() {
    let mut once = mixed_log();
    prune_log(&mut once);
    let mut twice = mixed_log();
    prune_log(&mut twice);
    prune_log(&mut twice);
    assert_eq!(once.fid_map, twice.fid_map);
    assert_eq!(once.actions.len(), twice.actions.len());
    // Surviving actions: last Chmod on 1, Write on 2, Chown on 2, in order.
    assert_eq!(once.actions.len(), 3);
    assert!(matches!(&once.actions[0], StateDiffAction::Write { fid: 2, .. }));
    assert!(matches!(&once.actions[1], StateDiffAction::Chmod { fid: 1, mode: 0o644 }));
    assert!(matches!(&once.actions[2], StateDiffAction::Chown { fid: 2, uid: 9, gid: 9 }));
    assert!(matches!(&twice.actions[0], StateDiffAction::Write { fid: 2, .. }));
    assert!(matches!(&twice.actions[1], StateDiffAction::Chmod { fid: 1, mode: 0o644 }));
    assert!(matches!(&twice.actions[2], StateDiffAction::Chown { fid: 2, uid: 9, gid: 9 }));
}
