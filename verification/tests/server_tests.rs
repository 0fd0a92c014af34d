use fuselog::applier::decode_payload;
use fuselog::compress::{trigger_retraining, AdaptiveState, TrainOutcome};
use fuselog::server::{
    build_get_payload, clear_statediff, frame_payload, parse_command, Command, GetSettings,
};
use fuselog::statediff::{StateDiffAction, StateDiffLog};

const OFF: GetSettings = GetSettings { prune: false, compression: false, adaptive: false };

fn small_log() -> StateDiffLog {
    StateDiffLog {
        fid_map: vec![(1, b"a.txt".to_vec())],
        actions: vec![
            StateDiffAction::Chown { fid: 1, uid: 1000, gid: 1000 },
            StateDiffAction::Write { fid: 1, offset: 0, data: b"hello".to_vec() },
        ],
    }
}

#[test]
fn command_bytes_map_to_commands() {
    assert_eq!(parse_command(b'g'), Command::Get);
    assert_eq!(parse_command(b'c'), Command::Clear);
    assert_eq!(parse_command(b't'), Command::Train);
    assert_eq!(parse_command(b'm'), Command::Checkpoint);
}

#[test]
fn unknown_command_bytes_are_ignored() {
    assert_eq!(parse_command(b'x'), Command::Unknown);
    assert_eq!(parse_command(0), Command::Unknown);
    assert_eq!(parse_command(255), Command::Unknown);
}

#[test]
fn clear_drops_actions_and_fid_table() {
    let mut log = small_log();
    clear_statediff(&mut log);
    assert!(log.actions.is_empty());
    assert!(log.fid_map.is_empty());
}

#[test]
fn frame_is_length_then_payload() {
    let framed = frame_payload(&vec![0xAA, 0xBB, 0xCC]);
    assert_eq!(framed, vec![3, 0, 0, 0, 0, 0, 0, 0, 0xAA, 0xBB, 0xCC]);
}

#[test]
fn get_on_empty_log_frames_the_empty_encoding() {
    let mut log = StateDiffLog { fid_map: vec![], actions: vec![] };
    let mut ad = AdaptiveState::default();
    let body = build_get_payload(&mut log, &mut ad, OFF).expect("uncompressed get succeeds");
    // Mode byte `n`, then the empty log's 16-byte encoding.
    let mut expected_body = vec![b'n'];
    expected_body.extend_from_slice(&[0u8; 16]);
    assert_eq!(body, expected_body);
    let framed = frame_payload(&body);
    let mut expected = vec![17u8, 0, 0, 0, 0, 0, 0, 0];
    expected.extend_from_slice(&expected_body);
    assert_eq!(framed, expected);
}

#[test]
fn second_get_returns_the_empty_log() {
    let mut log = small_log();
    let mut ad = AdaptiveState::default();
    let first = build_get_payload(&mut log, &mut ad, OFF).expect("first get succeeds");
    assert!(first.len() > 17);
    assert!(log.actions.is_empty());
    assert!(log.fid_map.is_empty());
    let second = build_get_payload(&mut log, &mut ad, OFF).expect("second get succeeds");
    let (decoded, dict) = decode_payload(&second, None).expect("payload decodes");
    assert!(dict.is_none());
    assert!(decoded.actions.is_empty());
    assert!(decoded.fid_map.is_empty());
}

#[test]
fn uncompressed_get_round_trips_through_the_applier() {
    let mut log = small_log();
    let mut ad = AdaptiveState::default();
    let body = build_get_payload(&mut log, &mut ad, OFF).expect("get succeeds");
    assert_eq!(body[0], b'n');
    let (decoded, _) = decode_payload(&body, None).expect("payload decodes");
    assert_eq!(decoded.fid_map, vec![(1, b"a.txt".to_vec())]);
    assert_eq!(decoded.actions.len(), 2);
    assert!(matches!(&decoded.actions[0], StateDiffAction::Chown { fid: 1, uid: 1000, gid: 1000 }));
}

#[test]
fn compressed_get_round_trips_through_the_applier() {
    let mut log = small_log();
    let mut ad = AdaptiveState::default();
    let s = GetSettings { prune: false, compression: true, adaptive: false };
    let body = build_get_payload(&mut log, &mut ad, s).expect("compressed get succeeds");
    assert_eq!(body[0], b'z');
    let (decoded, dict) = decode_payload(&body, None).expect("payload decodes");
    assert!(dict.is_none());
    assert_eq!(decoded.fid_map, vec![(1, b"a.txt".to_vec())]);
    assert_eq!(decoded.actions.len(), 2);
}

#[test]
fn pruned_get_collapses_before_serialising() {
    let mut log = StateDiffLog {
        fid_map: vec![(1, b"f".to_vec())],
        actions: vec![
            StateDiffAction::Chmod { fid: 1, mode: 0o600 },
            StateDiffAction::Chmod { fid: 1, mode: 0o644 },
        ],
    };
    let mut ad = AdaptiveState::default();
    let s = GetSettings { prune: true, compression: false, adaptive: false };
    let body = build_get_payload(&mut log, &mut ad, s).expect("get succeeds");
    let (decoded, _) = decode_payload(&body, None).expect("payload decodes");
    assert_eq!(decoded.actions.len(), 1);
    assert!(matches!(&decoded.actions[0], StateDiffAction::Chmod { fid: 1, mode: 0o644 }));
}

fn trainable_state() -> AdaptiveState {
    let mut ad = AdaptiveState::default();
    for i in 0..6u8 {
        // Compressible, repetitive samples well over every dev threshold.
        let mut sample = Vec::new();
        for k in 0..600u32 {
            sample.push(((k % 7) as u8) + i);
        }
        ad.training_buffer.push(sample);
    }
    ad
}

#[test]
fn training_thresholds_are_enforced() {
    let mut empty = AdaptiveState::default();
    assert_eq!(trigger_retraining(&mut empty, true), TrainOutcome::EmptyBuffer);

    let mut few = AdaptiveState::default();
    few.training_buffer.push(vec![1u8; 4096]);
    assert_eq!(trigger_retraining(&mut few, true), TrainOutcome::TooFewSamples);
    assert!(few.encoder_dict.is_none());

    let mut small = AdaptiveState::default();
    for _ in 0..5 {
        small.training_buffer.push(vec![2u8; 100]);
    }
    assert_eq!(trigger_retraining(&mut small, true), TrainOutcome::TooFewBytes);

    let mut thin = AdaptiveState::default();
    for _ in 0..60 {
        thin.training_buffer.push(vec![3u8; 40]);
    }
    assert_eq!(trigger_retraining(&mut thin, true), TrainOutcome::SamplesTooSmall);
}

#[test]
fn dictionary_handshake_sends_the_dictionary_exactly_once() {
    let mut ad = trainable_state();
    let outcome = trigger_retraining(&mut ad, true);
    if outcome != TrainOutcome::Trained {
        // Dictionary training can refuse degenerate corpora; the handshake
        // then never starts. Everything else must be untouched.
        assert_eq!(outcome, TrainOutcome::Failed);
        assert!(ad.encoder_dict.is_none());
        return;
    }
    assert!(ad.encoder_dict.is_some());

    let s = GetSettings { prune: false, compression: true, adaptive: true };
    let mut log = small_log();
    let first = build_get_payload(&mut log, &mut ad, s).expect("adaptive get succeeds");
    assert_eq!(first[0], b'd');
    let (decoded, new_dict) = decode_payload(&first, None).expect("dictionary payload decodes");
    let dict = new_dict.expect("the first adaptive payload carries the dictionary");
    assert_eq!(&dict, ad.encoder_dict.as_ref().unwrap());
    // Dev-mode target size for 3600 buffered bytes: min(8 KiB, half the
    // volume) with a 512-byte floor, so 1800 bytes at most.
    assert!(dict.len() <= 1800);
    assert_eq!(decoded.fid_map, vec![(1, b"a.txt".to_vec())]);
    assert_eq!(decoded.actions.len(), 2);

    // The next payload uses the dictionary silently; the applier
    // decompresses with its cached copy.
    let mut log2 = small_log();
    let second = build_get_payload(&mut log2, &mut ad, s).expect("second adaptive get succeeds");
    assert_eq!(second[0], b'z');
    let (decoded2, nd2) = decode_payload(&second, Some(&dict)).expect("cached dict decodes");
    assert!(nd2.is_none());
    assert_eq!(decoded2.actions.len(), 2);
}

#[test]
fn adaptive_get_without_dictionary_compresses_plainly() {
    let mut log = small_log();
    let mut ad = AdaptiveState::default();
    let s = GetSettings { prune: false, compression: true, adaptive: true };
    let body = build_get_payload(&mut log, &mut ad, s).expect("get succeeds");
    assert_eq!(body[0], b'z');
    // The raw encoding was sampled for future training.
    assert_eq!(ad.training_buffer.len(), 1);
    let (decoded, _) = decode_payload(&body, None).expect("payload decodes");
    assert_eq!(decoded.actions.len(), 2);
}

#[test]
fn second_get_compressed_still_returns_the_empty_log() {
    let mut log = small_log();
    let mut ad = AdaptiveState::default();
    let s = GetSettings { prune: true, compression: true, adaptive: false };
    let _first = build_get_payload(&mut log, &mut ad, s).expect("first get succeeds");
    assert!(log.actions.is_empty());
    assert!(log.fid_map.is_empty());
    let second = build_get_payload(&mut log, &mut ad, s).expect("second get succeeds");
    assert_eq!(second[0], b'z');
    let (decoded, _) = decode_payload(&second, None).expect("payload decodes");
    assert!(decoded.actions.is_empty());
    assert!(decoded.fid_map.is_empty());
}
