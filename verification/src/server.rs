use vstd::prelude::*;

use vstd::bytes::{spec_u32_to_le_bytes, u32_to_le_bytes, u64_to_le_bytes};

use crate::codec::{decode_log_spec, enc_u64, encode_log_spec, encode_statediff};
use crate::compress::{
    compress_of, dict_compress_of, zstd_compress, zstd_compress_dict, AdaptiveState, CompressError,
};
use crate::prune::{prune_actions, prune_log, prune_map};
use crate::statediff::{actions_model, clone_bytes, entries_model, LogModel, StateDiffLog};

verus! {

/// The one-byte commands a client may send on the control socket.
#[derive(Debug, Clone, Copy, PartialEq, Eq, Structural)]
pub enum Command {
    Get,
    Clear,
    Train,
    Checkpoint,
    Unknown,
}

/// Map a received command byte to its command. Any unrecognised byte is
/// `Unknown`: it is ignored and the connection stays open.
pub fn parse_command(b: u8) -> (r: Command)
    ensures
        (r == Command::Get <==> b == 103),
        (r == Command::Clear <==> b == 99),
        (r == Command::Train <==> b == 116),
        (r == Command::Checkpoint <==> b == 109),
        (r == Command::Unknown <==> b != 103 && b != 99 && b != 116 && b != 109),
{
    if b == 103 {
        Command::Get
    } else if b == 99 {
        Command::Clear
    } else if b == 116 {
        Command::Train
    } else if b == 109 {
        Command::Checkpoint
    } else {
        Command::Unknown
    }
}

/// The policy toggles a `get` runs under, read from the environment by
/// the caller.
#[derive(Debug, Clone, Copy, PartialEq, Eq, Structural)]
pub struct GetSettings {
    pub prune: bool,
    pub compression: bool,
    pub adaptive: bool,
}

/// Drop the log's contents: both the action list and the FID table.
/// FID allocation restarts at 1 in the next epoch.
pub fn clear_statediff(log: &mut StateDiffLog)
    ensures
        final(log).is_empty_spec(),
        final(log).building(),
{
    log.actions = Vec::new();
    log.fid_map = Vec::new();
}

/// The dictionary bytes currently held, abstractly.
pub open spec fn dict_model(o: Option<Vec<u8>>) -> Option<Seq<u8>> {
    match o {
        Some(d) => Some(d@),
        None => None,
    }
}

/// The mode-tagged body a `get` serves, given the encoded (possibly
/// pruned) log and the compression policy and dictionary state:
/// `n` + raw bytes; `z` + compressed bytes; or, exactly once per freshly
/// trained dictionary, `d` + dictionary length + dictionary + `z` +
/// dictionary-compressed bytes.
pub open spec fn get_body_spec(
    enc: Seq<u8>,
    compression: bool,
    adaptive: bool,
    dict: Option<Seq<u8>>,
    dict_sent: bool,
) -> Seq<u8> {
    if !compression {
        seq![110u8] + enc
    } else if adaptive {
        match dict {
            Some(d) => if !dict_sent {
                seq![100u8] + spec_u32_to_le_bytes(d.len() as u32) + d + seq![122u8]
                    + dict_compress_of(enc, d)
            } else {
                seq![122u8] + dict_compress_of(enc, d)
            },
            None => seq![122u8] + compress_of(enc),
        }
    } else {
        seq![122u8] + compress_of(enc)
    }
}

/// The log after the optional pruning pass of a `get`.
pub open spec fn pruned_model(l: LogModel, prune: bool) -> LogModel {
    if prune {
        LogModel { fid_map: prune_map(l.actions, l.fid_map), actions: prune_actions(l.actions) }
    } else {
        l
    }
}

/// Serve the body of a `get`: prune if asked, serialise, sample and
/// compress per the adaptive dictionary state, then clear the log. A
/// newly trained dictionary rides along exactly once, with the first
/// payload compressed with it. If compression fails the error is
/// returned, nothing is sent, and the (pruned) log is kept.
pub fn build_get_payload(
    log: &mut StateDiffLog,
    adaptive: &mut AdaptiveState,
    s: GetSettings,
) -> (r: Result<Vec<u8>, CompressError>)
    ensures
        ({
            let pruned = pruned_model(old(log).model(), s.prune);
            let enc = encode_log_spec(pruned);
            &&& match r {
                Ok(v) => {
                    &&& v@ == get_body_spec(
                        enc,
                        s.compression,
                        s.adaptive,
                        dict_model(old(adaptive).encoder_dict),
                        old(adaptive).dict_sent,
                    )
                    &&& final(log).is_empty_spec()
                    &&& final(log).building()
                },
                Err(_) => {
                    &&& actions_model(final(log).actions@) == pruned.actions
                    &&& entries_model(final(log).fid_map@) == pruned.fid_map
                    &&& s.compression
                },
            }
            &&& if s.compression && s.adaptive {
                &&& final(adaptive).training_buffer@.len() == old(
                    adaptive,
                ).training_buffer@.len() + 1
                &&& final(adaptive).training_buffer@.subrange(
                    0,
                    old(adaptive).training_buffer@.len() as int,
                ) == old(adaptive).training_buffer@
                &&& final(adaptive).training_buffer@.last()@ == enc
                &&& final(adaptive).encoder_dict == old(adaptive).encoder_dict
                &&& (r is Ok && old(adaptive).encoder_dict is Some ==> final(adaptive).dict_sent
                    == true)
                &&& (old(adaptive).encoder_dict is None ==> final(adaptive).dict_sent == old(
                    adaptive,
                ).dict_sent)
                &&& (r is Err ==> final(adaptive).dict_sent == old(adaptive).dict_sent)
            } else {
                *final(adaptive) == *old(adaptive)
            }
            &&& (!s.compression ==> r is Ok)
        }),
{
    let ghost l0 = *log;
    if s.prune {
        prune_log(log);
        proof {
            assert(log.model() == pruned_model(l0.model(), s.prune));
        }
    }
    let ghost pruned = log.model();
    let enc = encode_statediff(log);
    if !s.compression {
        let mut body: Vec<u8> = Vec::new();
        body.push(110u8);
        body.extend_from_slice(enc.as_slice());
        assert(body@ =~= seq![110u8] + enc@);
        clear_statediff(log);
        return Ok(body);
    }
    if s.adaptive {
        adaptive.training_buffer.push(clone_bytes(&enc));
        assert(adaptive.training_buffer@.subrange(0, old(adaptive).training_buffer@.len() as int)
            =~= old(adaptive).training_buffer@);
        let dict_opt: Option<Vec<u8>> = match &adaptive.encoder_dict {
            Some(d) => Some(clone_bytes(d)),
            None => None,
        };
        match dict_opt {
            Some(d) => {
                match zstd_compress_dict(&enc, &d) {
                    Ok(c) => {
                        let mut body: Vec<u8> = Vec::new();
                        if !adaptive.dict_sent {
                            body.push(100u8);
                            let mut lenb = u32_to_le_bytes(d.len() as u32);
                            body.append(&mut lenb);
                            body.extend_from_slice(d.as_slice());
                            body.push(122u8);
                            let mut cc = c;
                            body.append(&mut cc);
                            assert(body@ =~= seq![100u8] + spec_u32_to_le_bytes(d@.len() as u32)
                                + d@ + seq![122u8] + dict_compress_of(enc@, d@));
                        } else {
                            body.push(122u8);
                            let mut cc = c;
                            body.append(&mut cc);
                            assert(body@ =~= seq![122u8] + dict_compress_of(enc@, d@));
                        }
                        adaptive.dict_sent = true;
                        clear_statediff(log);
                        Ok(body)
                    },
                    Err(e) => Err(e),
                }
            },
            None => {
                match zstd_compress(&enc) {
                    Ok(c) => {
                        let mut body: Vec<u8> = Vec::new();
                        body.push(122u8);
                        let mut cc = c;
                        body.append(&mut cc);
                        assert(body@ =~= seq![122u8] + compress_of(enc@));
                        clear_statediff(log);
                        Ok(body)
                    },
                    Err(e) => Err(e),
                }
            },
        }
    } else {
        match zstd_compress(&enc) {
            Ok(c) => {
                let mut body: Vec<u8> = Vec::new();
                body.push(122u8);
                let mut cc = c;
                body.append(&mut cc);
                assert(body@ =~= seq![122u8] + compress_of(enc@));
                clear_statediff(log);
                Ok(body)
            },
            Err(e) => Err(e),
        }
    }
}

/// Prefix a payload with its 8-byte little-endian length: the exact bytes
/// the server writes on the socket for a `get`.
pub fn frame_payload(payload: &Vec<u8>) -> (r: Vec<u8>)
    ensures
        r@ == enc_u64(payload@.len() as u64) + payload@,
{
    let mut r = u64_to_le_bytes(payload.len() as u64);
    r.extend_from_slice(payload.as_slice());
    assert(r@ =~= enc_u64(payload@.len() as u64) + payload@);
    r
}

/// A `get` served right after a successful `get` carries the empty log:
/// the log was cleared, pruning an empty log changes nothing, and with
/// compression off the body is the empty log's encoding behind the raw
/// marker; the encoding decodes back to the empty log.
pub proof fn lemma_second_get_is_empty(
    prune: bool,
    adaptive: bool,
    dict: Option<Seq<u8>>,
    dict_sent: bool,
)
    ensures
        pruned_model(LogModel::empty(), prune) == LogModel::empty(),
        decode_log_spec(encode_log_spec(LogModel::empty())) == Some(LogModel::empty()),
        get_body_spec(encode_log_spec(LogModel::empty()), false, adaptive, dict, dict_sent)
            == seq![110u8] + encode_log_spec(LogModel::empty()),
{
    let e = LogModel::empty();
    assert(prune_actions(e.actions) =~= e.actions);
    assert(prune_map(e.actions, e.fid_map) =~= e.fid_map);
    assert(pruned_model(e, prune) == e);
    crate::codec::lemma_decode_encode(e);
}


} // verus!
