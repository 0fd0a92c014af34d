use fuselog::inode::InodeManager;
use fuselog::intercept::{
    commit_chmod, commit_chown, commit_create, commit_link, commit_mkdir, commit_rename,
    commit_rmdir, commit_symlink, commit_truncate, commit_unlink, commit_write, join_path,
    parent_dir, resolve_owner, FuseLogFS,
};
use fuselog::statediff::{get_fid, StateDiffAction, StateDiffLog};

#[test]
fn fids_are_dense_and_stable_within_an_epoch() {
    let mut log = StateDiffLog { fid_map: vec![], actions: vec![] };
    let a = get_fid(&mut log, &b"a".to_vec());
    let b = get_fid(&mut log, &b"b".to_vec());
    let a2 = get_fid(&mut log, &b"a".to_vec());
    let c = get_fid(&mut log, &b"c".to_vec());
    assert_eq!(a, 1);
    assert_eq!(b, 2);
    assert_eq!(a2, 1);
    assert_eq!(c, 3);
    assert_eq!(
        log.fid_map,
        vec![(1, b"a".to_vec()), (2, b"b".to_vec()), (3, b"c".to_vec())]
    );
}

#[test]
fn inode_allocation_is_monotonic_from_two() {
    let mut m = InodeManager::new();
    let a = m.get_or_create_ino(&b"x".to_vec());
    let b = m.get_or_create_ino(&b"y".to_vec());
    let a2 = m.get_or_create_ino(&b"x".to_vec());
    assert_eq!(a, 2);
    assert_eq!(b, 3);
    assert_eq!(a2, 2);
    assert_eq!(m.get_path(1), Some(b".".to_vec()));
    assert_eq!(m.get_path(2), Some(b"x".to_vec()));
}

#[test]
fn removed_paths_are_forgotten_and_inodes_never_reused() {
    let mut m = InodeManager::new();
    let a = m.get_or_create_ino(&b"x".to_vec());
    assert_eq!(m.remove_path(&b"x".to_vec()), Some(a));
    assert_eq!(m.remove_path(&b"x".to_vec()), None);
    let b = m.get_or_create_ino(&b"x".to_vec());
    assert_eq!(b, 3);
    assert_ne!(a, b);
}

#[test]
fn rename_keeps_the_inode() {
    let mut m = InodeManager::new();
    let a = m.get_or_create_ino(&b"old".to_vec());
    m.rename_path(&b"old".to_vec(), &b"new".to_vec());
    assert_eq!(m.get_path(a), Some(b"new".to_vec()));
    assert_eq!(m.get_or_create_ino(&b"new".to_vec()), a);
    assert_eq!(m.remove_path(&b"old".to_vec()), None);
}

#[test]
fn link_binds_both_paths_to_one_inode() {
    let mut m = InodeManager::new();
    let a = m.get_or_create_ino(&b"file".to_vec());
    m.link_path(a, &b"alias".to_vec());
    assert_eq!(m.get_or_create_ino(&b"alias".to_vec()), a);
    assert_eq!(m.get_or_create_ino(&b"file".to_vec()), a);
}

#[test]
fn path_joining_and_parents() {
    assert_eq!(join_path(&b".".to_vec(), &b"a".to_vec()), b"a".to_vec());
    assert_eq!(join_path(&b"a".to_vec(), &b"b".to_vec()), b"a/b".to_vec());
    assert_eq!(join_path(&b"a/b".to_vec(), &b"c".to_vec()), b"a/b/c".to_vec());
    assert_eq!(parent_dir(&b"a/b/c".to_vec()), b"a/b".to_vec());
    assert_eq!(parent_dir(&b"a".to_vec()), b".".to_vec());
}

#[test]
fn get_relative_path_strips_dot_slash() {
    let fs = FuseLogFS::new();
    assert_eq!(fs.get_relative_path(&b"./a/b".to_vec()), b"a/b".to_vec());
    assert_eq!(fs.get_relative_path(&b"a/b".to_vec()), b"a/b".to_vec());
    assert_eq!(fs.get_relative_path(&b".".to_vec()), b".".to_vec());
}

#[test]
fn mkdir_logs_mkdir_then_chown_atomically() {
    let mut log = StateDiffLog { fid_map: vec![], actions: vec![] };
    commit_mkdir(&mut log, &b"d".to_vec(), 1000, 1000);
    assert_eq!(log.actions.len(), 2);
    assert!(matches!(&log.actions[0], StateDiffAction::Mkdir { fid: 1 }));
    assert!(matches!(&log.actions[1], StateDiffAction::Chown { fid: 1, uid: 1000, gid: 1000 }));
    assert_eq!(log.fid_map, vec![(1, b"d".to_vec())]);
}

#[test]
fn create_logs_only_the_ownership() {
    let mut log = StateDiffLog { fid_map: vec![], actions: vec![] };
    commit_create(&mut log, &b"f".to_vec(), 7, 8);
    assert_eq!(log.actions.len(), 1);
    assert!(matches!(&log.actions[0], StateDiffAction::Chown { fid: 1, uid: 7, gid: 8 }));
}

#[test]
fn append_order_follows_commit_order() {
    let mut log = StateDiffLog { fid_map: vec![], actions: vec![] };
    commit_create(&mut log, &b"f".to_vec(), 0, 0);
    commit_write(&mut log, &b"f".to_vec(), 0, &b"hello".to_vec());
    commit_truncate(&mut log, &b"f".to_vec(), 3);
    commit_chmod(&mut log, &b"f".to_vec(), 0o600);
    commit_chown(&mut log, &b"f".to_vec(), 1, 2);
    commit_unlink(&mut log, &b"f".to_vec());
    assert_eq!(log.actions.len(), 6);
    assert!(matches!(&log.actions[0], StateDiffAction::Chown { fid: 1, .. }));
    assert!(
        matches!(&log.actions[1], StateDiffAction::Write { fid: 1, offset: 0, data } if data == b"hello")
    );
    assert!(matches!(&log.actions[2], StateDiffAction::Truncate { fid: 1, size: 3 }));
    assert!(matches!(&log.actions[3], StateDiffAction::Chmod { fid: 1, mode: 0o600 }));
    assert!(matches!(&log.actions[4], StateDiffAction::Chown { fid: 1, uid: 1, gid: 2 }));
    assert!(matches!(&log.actions[5], StateDiffAction::Unlink { fid: 1 }));
    // One FID for one path, interned once.
    assert_eq!(log.fid_map, vec![(1, b"f".to_vec())]);
}

#[test]
fn rename_interns_a_fresh_destination_fid() {
    let mut log = StateDiffLog { fid_map: vec![], actions: vec![] };
    commit_create(&mut log, &b"old".to_vec(), 0, 0);
    commit_rename(&mut log, &b"old".to_vec(), &b"new".to_vec());
    assert_eq!(log.fid_map, vec![(1, b"old".to_vec()), (2, b"new".to_vec())]);
    assert!(matches!(&log.actions[1], StateDiffAction::Rename { from_fid: 1, to_fid: 2 }));
}

#[test]
fn link_and_symlink_are_logged() {
    let mut log = StateDiffLog { fid_map: vec![], actions: vec![] };
    commit_link(&mut log, &b"src".to_vec(), &b"dst".to_vec());
    commit_symlink(&mut log, &b"ln".to_vec(), &b"src".to_vec(), 3, 4);
    assert!(matches!(&log.actions[0], StateDiffAction::Link { source_fid: 1, new_link_fid: 2 }));
    assert!(matches!(
        &log.actions[1],
        StateDiffAction::Symlink { link_fid: 3, target_path, uid: 3, gid: 4 } if target_path == b"src"
    ));
}

#[test]
fn rmdir_is_logged() {
    let mut log = StateDiffLog { fid_map: vec![], actions: vec![] };
    commit_rmdir(&mut log, &b"d".to_vec());
    assert!(matches!(&log.actions[0], StateDiffAction::Rmdir { fid: 1 }));
}

#[test]
fn setattr_owner_falls_back_to_current_metadata() {
    assert_eq!(resolve_owner(Some(5), None, 1, 2), (5, 2));
    assert_eq!(resolve_owner(None, Some(6), 1, 2), (1, 6));
    assert_eq!(resolve_owner(None, None, 1, 2), (1, 2));
    assert_eq!(resolve_owner(Some(5), Some(6), 1, 2), (5, 6));
}

#[test]
fn readdir_emits_dot_entries_then_children_and_honours_offset() {
    let mut fs = FuseLogFS::new();
    let d = fs.inodes.get_or_create_ino(&b"d".to_vec());
    let children = vec![(b"x".to_vec(), false), (b"sub".to_vec(), true)];
    let entries = fs.readdir_entries(d, &children, 0).expect("known inode");
    assert_eq!(entries.len(), 4);
    assert_eq!(entries[0], (d, true, b".".to_vec()));
    assert_eq!(entries[1], (1, true, b"..".to_vec()));
    assert_eq!(entries[2].2, b"x".to_vec());
    assert!(!entries[2].1);
    assert_eq!(entries[3].2, b"sub".to_vec());
    assert!(entries[3].1);
    // The children were interned: the same inode comes back.
    let x_ino = entries[2].0;
    assert_eq!(fs.inodes.get_or_create_ino(&b"d/x".to_vec()), x_ino);
    // An offset skips the already-delivered entries.
    let rest = fs.readdir_entries(d, &children, 3).expect("known inode");
    assert_eq!(rest.len(), 1);
    assert_eq!(rest[0].2, b"sub".to_vec());
    // An unknown inode is refused.
    assert!(fs.readdir_entries(999, &children, 0).is_none());
}
