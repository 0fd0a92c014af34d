use fuselog::codec::{decode_statediff, encode_statediff};
use fuselog::statediff::{StateDiffAction, StateDiffLog};

fn sample_log() -> StateDiffLog {
    StateDiffLog {
        fid_map: vec![
            (1, b"a.txt".to_vec()),
            (2, b"dir".to_vec()),
            (3, b"dir/b.txt".to_vec()),
            (4, b"ln".to_vec()),
        ],
        actions: vec![
            StateDiffAction::Create { fid: 1, uid: 1000, gid: 1000, mode: 0o644 },
            StateDiffAction::Write { fid: 1, offset: 0, data: b"hello".to_vec() },
            StateDiffAction::Unlink { fid: 1 },
            StateDiffAction::Truncate { fid: 3, size: 42 },
            StateDiffAction::Rename { from_fid: 1, to_fid: 3 },
            StateDiffAction::Link { source_fid: 3, new_link_fid: 4 },
            StateDiffAction::Chown { fid: 2, uid: 5, gid: 6 },
            StateDiffAction::Chmod { fid: 2, mode: 0o755 },
            StateDiffAction::Mkdir { fid: 2 },
            StateDiffAction::Rmdir { fid: 2 },
            StateDiffAction::Symlink {
                link_fid: 4,
                target_path: b"dir/b.txt".to_vec(),
                uid: 7,
                gid: 8,
            },
        ],
    }
}

#[test]
fn round_trip_preserves_structure() {
    let log = sample_log();
    let bytes = encode_statediff(&log);
    let back = decode_statediff(&bytes).expect("round trip decodes");
    assert_eq!(back.fid_map.len(), 4);
    assert_eq!(back.fid_map[0], (1, b"a.txt".to_vec()));
    assert_eq!(back.fid_map[1], (2, b"dir".to_vec()));
    assert_eq!(back.fid_map[2], (3, b"dir/b.txt".to_vec()));
    assert_eq!(back.fid_map[3], (4, b"ln".to_vec()));
    assert_eq!(back.actions.len(), 11);
    assert!(matches!(
        &back.actions[0],
        StateDiffAction::Create { fid: 1, uid: 1000, gid: 1000, mode: 0o644 }
    ));
    assert!(
        matches!(&back.actions[1], StateDiffAction::Write { fid: 1, offset: 0, data } if data == b"hello")
    );
    assert!(matches!(&back.actions[2], StateDiffAction::Unlink { fid: 1 }));
    assert!(matches!(&back.actions[3], StateDiffAction::Truncate { fid: 3, size: 42 }));
    assert!(matches!(&back.actions[4], StateDiffAction::Rename { from_fid: 1, to_fid: 3 }));
    assert!(matches!(&back.actions[5], StateDiffAction::Link { source_fid: 3, new_link_fid: 4 }));
    assert!(matches!(&back.actions[6], StateDiffAction::Chown { fid: 2, uid: 5, gid: 6 }));
    assert!(matches!(&back.actions[7], StateDiffAction::Chmod { fid: 2, mode: 0o755 }));
    assert!(matches!(&back.actions[8], StateDiffAction::Mkdir { fid: 2 }));
    assert!(matches!(&back.actions[9], StateDiffAction::Rmdir { fid: 2 }));
    assert!(matches!(
        &back.actions[10],
        StateDiffAction::Symlink { link_fid: 4, target_path, uid: 7, gid: 8 } if target_path == b"dir/b.txt"
    ));
}

#[test]
fn tag_bytes_follow_declaration_order() {
    let log = StateDiffLog {
        fid_map: vec![],
        actions: vec![StateDiffAction::Unlink { fid: 9 }],
    };
    let bytes = encode_statediff(&log);
    // fid count 0, action count 1, then tag 2 for Unlink, then fid 9.
    assert_eq!(&bytes[0..8], &[0u8; 8]);
    assert_eq!(&bytes[8..16], &[1, 0, 0, 0, 0, 0, 0, 0]);
    assert_eq!(bytes[16], 2);
    assert_eq!(&bytes[17..25], &[9, 0, 0, 0, 0, 0, 0, 0]);
    assert_eq!(bytes.len(), 25);
}

#[test]
fn empty_log_encodes_to_sixteen_zero_bytes() {
    let log = StateDiffLog { fid_map: vec![], actions: vec![] };
    let bytes = encode_statediff(&log);
    assert_eq!(bytes, vec![0u8; 16]);
    let back = decode_statediff(&bytes).expect("empty log decodes");
    assert!(back.fid_map.is_empty());
    assert!(back.actions.is_empty());
}

#[test]
fn decode_rejects_trailing_garbage() {
    let log = sample_log();
    let mut bytes = encode_statediff(&log);
    bytes.push(0);
    assert!(decode_statediff(&bytes).is_none());
}

#[test]
fn decode_rejects_unknown_tag() {
    // fid count 0, action count 1, tag byte 99.
    let mut bytes = vec![0u8; 8];
    bytes.extend_from_slice(&[1, 0, 0, 0, 0, 0, 0, 0]);
    bytes.push(99);
    bytes.extend_from_slice(&[0u8; 8]);
    assert!(decode_statediff(&bytes).is_none());
}

#[test]
fn decode_rejects_truncated_input() {
    let log = sample_log();
    let bytes = encode_statediff(&log);
    let cut = &bytes[0..bytes.len() - 1];
    assert!(decode_statediff(&cut.to_vec()).is_none());
}
