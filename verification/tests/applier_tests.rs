use fuselog::applier::{
    creates_parents, decode_payload, get_full_path, missing_is_warning, plan_action, ApplyError,
    ApplyStep,
};
use fuselog::statediff::{StateDiffAction, StateDiffLog};

fn log_with_paths() -> StateDiffLog {
    StateDiffLog {
        fid_map: vec![(1, b"a.txt".to_vec()), (2, b"dir/b".to_vec())],
        actions: vec![],
    }
}

#[test]
fn full_paths_join_under_the_target_root() {
    let log = log_with_paths();
    let target = b"/tmp/out".to_vec();
    assert_eq!(get_full_path(&log, 1, &target), Ok(b"/tmp/out/a.txt".to_vec()));
    assert_eq!(get_full_path(&log, 2, &target), Ok(b"/tmp/out/dir/b".to_vec()));
}

#[test]
fn unknown_fid_aborts_with_its_number() {
    let log = log_with_paths();
    let target = b"/t".to_vec();
    assert_eq!(get_full_path(&log, 7, &target), Err(ApplyError::UnknownFid(7)));
}

#[test]
fn actions_plan_to_resolved_steps() {
    let log = log_with_paths();
    let target = b"/t".to_vec();
    let w = StateDiffAction::Write { fid: 1, offset: 5, data: b"xy".to_vec() };
    match plan_action(&log, &w, &target) {
        Ok(ApplyStep::WriteAt { path, offset, data }) => {
            assert_eq!(path, b"/t/a.txt".to_vec());
            assert_eq!(offset, 5);
            assert_eq!(data, b"xy".to_vec());
        },
        other => panic!("unexpected plan: {:?}", other.is_ok()),
    }
    let r = StateDiffAction::Rename { from_fid: 1, to_fid: 2 };
    match plan_action(&log, &r, &target) {
        Ok(ApplyStep::MoveEntry { from, to }) => {
            assert_eq!(from, b"/t/a.txt".to_vec());
            assert_eq!(to, b"/t/dir/b".to_vec());
        },
        _ => panic!("rename did not plan to a move"),
    }
    let s = StateDiffAction::Symlink { link_fid: 2, target_path: b"a.txt".to_vec(), uid: 1, gid: 2 };
    match plan_action(&log, &s, &target) {
        Ok(ApplyStep::MakeSymlink { path, target: t, uid, gid }) => {
            assert_eq!(path, b"/t/dir/b".to_vec());
            assert_eq!(t, b"a.txt".to_vec());
            assert_eq!(uid, 1);
            assert_eq!(gid, 2);
        },
        _ => panic!("symlink did not plan"),
    }
    let bad = StateDiffAction::Link { source_fid: 1, new_link_fid: 9 };
    match plan_action(&log, &bad, &target) {
        Err(ApplyError::UnknownFid(9)) => {},
        _ => panic!("missing link endpoint must abort"),
    }
}

#[test]
fn replay_tolerates_missing_objects_only_where_specified() {
    let p = b"/t/x".to_vec();
    assert!(missing_is_warning(&ApplyStep::RemoveFile { path: p.clone() }));
    assert!(missing_is_warning(&ApplyStep::RemoveDir { path: p.clone() }));
    assert!(missing_is_warning(&ApplyStep::SetOwner { path: p.clone(), uid: 0, gid: 0 }));
    assert!(missing_is_warning(&ApplyStep::SetMode { path: p.clone(), mode: 0o644 }));
    assert!(!missing_is_warning(&ApplyStep::MakeDir { path: p.clone() }));
    assert!(!missing_is_warning(&ApplyStep::WriteAt { path: p.clone(), offset: 0, data: vec![] }));
    assert!(!missing_is_warning(&ApplyStep::MoveEntry { from: p.clone(), to: p.clone() }));
}

#[test]
fn file_bearing_steps_create_missing_parents() {
    let p = b"/t/x".to_vec();
    assert!(creates_parents(&ApplyStep::CreateFile { path: p.clone(), mode: 0, uid: 0, gid: 0 }));
    assert!(creates_parents(&ApplyStep::WriteAt { path: p.clone(), offset: 0, data: vec![] }));
    assert!(creates_parents(&ApplyStep::SetLen { path: p.clone(), size: 0 }));
    assert!(creates_parents(&ApplyStep::MoveEntry { from: p.clone(), to: p.clone() }));
    assert!(creates_parents(&ApplyStep::HardLink { source: p.clone(), dest: p.clone() }));
    assert!(
        creates_parents(&ApplyStep::MakeSymlink { path: p.clone(), target: p.clone(), uid: 0, gid: 0 })
    );
    assert!(!creates_parents(&ApplyStep::RemoveFile { path: p.clone() }));
    assert!(!creates_parents(&ApplyStep::SetMode { path: p.clone(), mode: 0 }));
}

#[test]
fn unknown_header_byte_is_rejected() {
    let body = vec![b'q', 1, 2, 3];
    assert!(matches!(decode_payload(&body, None), Err(ApplyError::UnknownHeader(b'q'))));
}

#[test]
fn empty_payload_is_rejected() {
    assert!(matches!(decode_payload(&vec![], None), Err(ApplyError::Truncated)));
}

#[test]
fn truncated_dictionary_frame_is_rejected() {
    // `d`, then a 4-byte length larger than what follows.
    let body = vec![b'd', 100, 0, 0, 0, 1, 2, 3];
    assert!(matches!(decode_payload(&body, None), Err(ApplyError::Truncated)));
}

#[test]
fn dictionary_frame_must_carry_a_compressed_marker() {
    // `d`, length 2, dictionary bytes, then a byte that is not `z`.
    let body = vec![b'd', 2, 0, 0, 0, 9, 9, b'q', 1, 2];
    assert!(matches!(decode_payload(&body, None), Err(ApplyError::ExpectedCompressed)));
}

#[test]
fn malformed_raw_log_is_rejected() {
    let body = vec![b'n', 1, 2, 3];
    assert!(matches!(decode_payload(&body, None), Err(ApplyError::MalformedLog)));
}

#[test]
fn create_then_write_plans_a_file_with_contents_and_owner() {
    // A freshly created file with one write: the replay steps create it
    // with its mode and owner, then write the bytes at offset zero.
    let log = StateDiffLog {
        fid_map: vec![(1, b"a.txt".to_vec())],
        actions: vec![
            StateDiffAction::Create { fid: 1, uid: 1000, gid: 1000, mode: 0o644 },
            StateDiffAction::Write { fid: 1, offset: 0, data: b"hello".to_vec() },
        ],
    };
    let target = b"/t".to_vec();
    match plan_action(&log, &log.actions[0], &target) {
        Ok(ApplyStep::CreateFile { path, mode, uid, gid }) => {
            assert_eq!(path, b"/t/a.txt".to_vec());
            assert_eq!(mode, 0o644);
            assert_eq!(uid, 1000);
            assert_eq!(gid, 1000);
        },
        _ => panic!("create did not plan"),
    }
    match plan_action(&log, &log.actions[1], &target) {
        Ok(ApplyStep::WriteAt { path, offset, data }) => {
            assert_eq!(path, b"/t/a.txt".to_vec());
            assert_eq!(offset, 0);
            assert_eq!(data, b"hello".to_vec());
        },
        _ => panic!("write did not plan"),
    }
}

#[test]
fn rename_scenario_plans_a_move_to_the_new_name() {
    // Create `old`, write `x`, rename to `new`: replay moves the file so
    // only `new` remains.
    let mut log = StateDiffLog { fid_map: vec![], actions: vec![] };
    fuselog::intercept::commit_create(&mut log, &b"old".to_vec(), 0, 0);
    fuselog::intercept::commit_write(&mut log, &b"old".to_vec(), 0, &b"x".to_vec());
    fuselog::intercept::commit_rename(&mut log, &b"old".to_vec(), &b"new".to_vec());
    let target = b"/t".to_vec();
    match plan_action(&log, &log.actions[2], &target) {
        Ok(ApplyStep::MoveEntry { from, to }) => {
            assert_eq!(from, b"/t/old".to_vec());
            assert_eq!(to, b"/t/new".to_vec());
        },
        _ => panic!("rename did not plan to a move"),
    }
}
