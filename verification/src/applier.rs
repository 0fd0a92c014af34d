use vstd::prelude::*;

use vstd::bytes::{spec_u32_to_le_bytes, u32_from_le_bytes};
use vstd::slice::{slice_subrange, slice_to_vec};

use crate::codec::{decode_log_spec, decode_statediff, encode_log_spec, log_bounded};
use crate::compress::{compress_of, dict_compress_of, zstd_decompress, zstd_decompress_dict};
use crate::statediff::{LogModel, StateDiffAction, StateDiffLog};

verus! {

/// Why replay stopped.
#[derive(Debug, Clone, Copy, PartialEq, Eq, Structural)]
pub enum ApplyError {
    UnknownFid(u64),
    UnknownHeader(u8),
    Truncated,
    ExpectedCompressed,
    MalformedLog,
    DecompressFailed,
}

/// The absolute path of a replayed object: the target root, a slash, the
/// log's relative path.
pub open spec fn join_target(target: Seq<u8>, rel: Seq<u8>) -> Seq<u8> {
    target + seq![47u8] + rel
}

/// The relative path of the first FID-table entry holding `fid`.
pub open spec fn table_first_path(m: Seq<(u64, Vec<u8>)>, fid: u64) -> Seq<u8> {
    let i = choose|i: int|
        0 <= i < m.len() && m[i].0 == fid && forall|j: int| 0 <= j < i ==> m[j].0 != fid;
    m[i].1@
}

/// Resolve a FID through the log's table and join it under the target
/// root. An unresolved FID aborts replay.
pub fn get_full_path(log: &StateDiffLog, fid: u64, target_path: &Vec<u8>) -> (r: Result<
    Vec<u8>,
    ApplyError,
>)
    ensures
        match r {
            Ok(p) => crate::statediff::table_has_fid(log.fid_map@, fid) && p@ == join_target(
                target_path@,
                table_first_path(log.fid_map@, fid),
            ),
            Err(e) => e == ApplyError::UnknownFid(fid) && !crate::statediff::table_has_fid(
                log.fid_map@,
                fid,
            ),
        },
{
    let n = log.fid_map.len();
    let mut i: usize = 0;
    while i < n
        invariant
            n == log.fid_map@.len(),
            0 <= i <= n,
            forall|k: int| 0 <= k < i ==> log.fid_map@[k].0 != fid,
        decreases n - i,
    {
        if log.fid_map[i].0 == fid {
            proof {
                let m = log.fid_map@;
                let w = choose|w: int|
                    0 <= w < m.len() && m[w].0 == fid && forall|j: int| 0 <= j < w ==> m[j].0 != fid;
                if w < i {
                    assert(m[w].0 != fid);
                } else if i < w {
                    assert(m[i as int].0 != fid);
                }
                assert(w == i);
            }
            let mut p = crate::statediff::clone_bytes(target_path);
            p.push(47u8);
            let rel = &log.fid_map[i].1;
            let mut k: usize = 0;
            let rn = rel.len();
            while k < rn
                invariant
                    rn == rel@.len(),
                    0 <= k <= rn,
                    p@ == target_path@ + seq![47u8] + rel@.subrange(0, k as int),
                decreases rn - k,
            {
                p.push(rel[k]);
                assert(p@ =~= target_path@ + seq![47u8] + rel@.subrange(0, k + 1));
                k += 1;
            }
            assert(rel@.subrange(0, rn as int) =~= rel@);
            return Ok(p);
        }
        i += 1;
    }
    Err(ApplyError::UnknownFid(fid))
}

/// One concrete filesystem operation replay performs against the target
/// tree, with every path already resolved under the target root.
pub enum ApplyStep {
    CreateFile { path: Vec<u8>, mode: u32, uid: u32, gid: u32 },
    WriteAt { path: Vec<u8>, offset: u64, data: Vec<u8> },
    RemoveFile { path: Vec<u8> },
    SetLen { path: Vec<u8>, size: u64 },
    MoveEntry { from: Vec<u8>, to: Vec<u8> },
    HardLink { source: Vec<u8>, dest: Vec<u8> },
    SetOwner { path: Vec<u8>, uid: u32, gid: u32 },
    SetMode { path: Vec<u8>, mode: u32 },
    MakeDir { path: Vec<u8> },
    RemoveDir { path: Vec<u8> },
    MakeSymlink { path: Vec<u8>, target: Vec<u8>, uid: u32, gid: u32 },
}

/// The step an action translates to, path-resolved against `m` and `t`.
pub open spec fn step_matches(
    st: ApplyStep,
    a: StateDiffAction,
    m: Seq<(u64, Vec<u8>)>,
    t: Seq<u8>,
) -> bool {
    match a {
        StateDiffAction::Create { fid, uid, gid, mode } => st matches ApplyStep::CreateFile {
            path,
            mode: m2,
            uid: u2,
            gid: g2,
        } && path@ == join_target(t, table_first_path(m, fid)) && m2 == mode && u2 == uid && g2
            == gid,
        StateDiffAction::Write { fid, offset, data } => st matches ApplyStep::WriteAt {
            path,
            offset: o2,
            data: d2,
        } && path@ == join_target(t, table_first_path(m, fid)) && o2 == offset && d2@ == data@,
        StateDiffAction::Unlink { fid } => st matches ApplyStep::RemoveFile { path } && path@
            == join_target(t, table_first_path(m, fid)),
        StateDiffAction::Truncate { fid, size } => st matches ApplyStep::SetLen { path, size: s2 }
            && path@ == join_target(t, table_first_path(m, fid)) && s2 == size,
        StateDiffAction::Rename { from_fid, to_fid } => st matches ApplyStep::MoveEntry {
            from,
            to,
        } && from@ == join_target(t, table_first_path(m, from_fid)) && to@ == join_target(
            t,
            table_first_path(m, to_fid),
        ),
        StateDiffAction::Link { source_fid, new_link_fid } => st matches ApplyStep::HardLink {
            source,
            dest,
        } && source@ == join_target(t, table_first_path(m, source_fid)) && dest@ == join_target(
            t,
            table_first_path(m, new_link_fid),
        ),
        StateDiffAction::Chown { fid, uid, gid } => st matches ApplyStep::SetOwner {
            path,
            uid: u2,
            gid: g2,
        } && path@ == join_target(t, table_first_path(m, fid)) && u2 == uid && g2 == gid,
        StateDiffAction::Chmod { fid, mode } => st matches ApplyStep::SetMode { path, mode: m2 }
            && path@ == join_target(t, table_first_path(m, fid)) && m2 == mode,
        StateDiffAction::Mkdir { fid } => st matches ApplyStep::MakeDir { path } && path@
            == join_target(t, table_first_path(m, fid)),
        StateDiffAction::Rmdir { fid } => st matches ApplyStep::RemoveDir { path } && path@
            == join_target(t, table_first_path(m, fid)),
        StateDiffAction::Symlink { link_fid, target_path, uid, gid } => st
            matches ApplyStep::MakeSymlink { path, target: t2, uid: u2, gid: g2 } && path@
            == join_target(t, table_first_path(m, link_fid)) && t2@ == target_path@ && u2 == uid
            && g2 == gid,
    }
}

/// Translate one action into the filesystem step that replays it, or
/// abort with the first FID the table cannot resolve.
pub fn plan_action(log: &StateDiffLog, a: &StateDiffAction, target_path: &Vec<u8>) -> (r: Result<
    ApplyStep,
    ApplyError,
>)
    ensures
        match r {
            Ok(st) => step_matches(st, *a, log.fid_map@, target_path@),
            Err(e) => {
                &&& e matches ApplyError::UnknownFid(f)
                &&& a.fids().contains(match e {
                    ApplyError::UnknownFid(f) => f,
                    _ => 0,
                })
                &&& !crate::statediff::table_has_fid(
                    log.fid_map@,
                    match e {
                        ApplyError::UnknownFid(f) => f,
                        _ => 0,
                    },
                )
            },
        },
{
    match a {
        StateDiffAction::Create { fid, uid, gid, mode } => {
            let path = match get_full_path(log, *fid, target_path) {
                Ok(p) => p,
                Err(e) => {
                    proof {
                        let f = match e {
                            ApplyError::UnknownFid(ff) => ff,
                            _ => 0u64,
                        };
                        if a.fids().len() >= 2 && a.fids()[1] == f {
                            assert(a.fids().contains(f));
                        } else {
                            assert(a.fids()[0] == f);
                            assert(a.fids().contains(f));
                        }
                    }
                    return Err(e);
                },
            };
            Ok(ApplyStep::CreateFile { path, mode: *mode, uid: *uid, gid: *gid })
        },
        StateDiffAction::Write { fid, offset, data } => {
            let path = match get_full_path(log, *fid, target_path) {
                Ok(p) => p,
                Err(e) => {
                    proof {
                        let f = match e {
                            ApplyError::UnknownFid(ff) => ff,
                            _ => 0u64,
                        };
                        if a.fids().len() >= 2 && a.fids()[1] == f {
                            assert(a.fids().contains(f));
                        } else {
                            assert(a.fids()[0] == f);
                            assert(a.fids().contains(f));
                        }
                    }
                    return Err(e);
                },
            };
            Ok(ApplyStep::WriteAt {
                path,
                offset: *offset,
                data: crate::statediff::clone_bytes(data),
            })
        },
        StateDiffAction::Unlink { fid } => {
            let path = match get_full_path(log, *fid, target_path) {
                Ok(p) => p,
                Err(e) => {
                    proof {
                        let f = match e {
                            ApplyError::UnknownFid(ff) => ff,
                            _ => 0u64,
                        };
                        if a.fids().len() >= 2 && a.fids()[1] == f {
                            assert(a.fids().contains(f));
                        } else {
                            assert(a.fids()[0] == f);
                            assert(a.fids().contains(f));
                        }
                    }
                    return Err(e);
                },
            };
            Ok(ApplyStep::RemoveFile { path })
        },
        StateDiffAction::Truncate { fid, size } => {
            let path = match get_full_path(log, *fid, target_path) {
                Ok(p) => p,
                Err(e) => {
                    proof {
                        let f = match e {
                            ApplyError::UnknownFid(ff) => ff,
                            _ => 0u64,
                        };
                        if a.fids().len() >= 2 && a.fids()[1] == f {
                            assert(a.fids().contains(f));
                        } else {
                            assert(a.fids()[0] == f);
                            assert(a.fids().contains(f));
                        }
                    }
                    return Err(e);
                },
            };
            Ok(ApplyStep::SetLen { path, size: *size })
        },
        StateDiffAction::Rename { from_fid, to_fid } => {
            let from = match get_full_path(log, *from_fid, target_path) {
                Ok(p) => p,
                Err(e) => {
                    proof {
                        let f = match e {
                            ApplyError::UnknownFid(ff) => ff,
                            _ => 0u64,
                        };
                        if a.fids().len() >= 2 && a.fids()[1] == f {
                            assert(a.fids().contains(f));
                        } else {
                            assert(a.fids()[0] == f);
                            assert(a.fids().contains(f));
                        }
                    }
                    return Err(e);
                },
            };
            let to = match get_full_path(log, *to_fid, target_path) {
                Ok(p) => p,
                Err(e) => {
                    proof {
                        let f = match e {
                            ApplyError::UnknownFid(ff) => ff,
                            _ => 0u64,
                        };
                        if a.fids().len() >= 2 && a.fids()[1] == f {
                            assert(a.fids().contains(f));
                        } else {
                            assert(a.fids()[0] == f);
                            assert(a.fids().contains(f));
                        }
                    }
                    return Err(e);
                },
            };
            Ok(ApplyStep::MoveEntry { from, to })
        },
        StateDiffAction::Link { source_fid, new_link_fid } => {
            let source = match get_full_path(log, *source_fid, target_path) {
                Ok(p) => p,
                Err(e) => {
                    proof {
                        let f = match e {
                            ApplyError::UnknownFid(ff) => ff,
                            _ => 0u64,
                        };
                        if a.fids().len() >= 2 && a.fids()[1] == f {
                            assert(a.fids().contains(f));
                        } else {
                            assert(a.fids()[0] == f);
                            assert(a.fids().contains(f));
                        }
                    }
                    return Err(e);
                },
            };
            let dest = match get_full_path(log, *new_link_fid, target_path) {
                Ok(p) => p,
                Err(e) => {
                    proof {
                        let f = match e {
                            ApplyError::UnknownFid(ff) => ff,
                            _ => 0u64,
                        };
                        if a.fids().len() >= 2 && a.fids()[1] == f {
                            assert(a.fids().contains(f));
                        } else {
                            assert(a.fids()[0] == f);
                            assert(a.fids().contains(f));
                        }
                    }
                    return Err(e);
                },
            };
            Ok(ApplyStep::HardLink { source, dest })
        },
        StateDiffAction::Chown { fid, uid, gid } => {
            let path = match get_full_path(log, *fid, target_path) {
                Ok(p) => p,
                Err(e) => {
                    proof {
                        let f = match e {
                            ApplyError::UnknownFid(ff) => ff,
                            _ => 0u64,
                        };
                        if a.fids().len() >= 2 && a.fids()[1] == f {
                            assert(a.fids().contains(f));
                        } else {
                            assert(a.fids()[0] == f);
                            assert(a.fids().contains(f));
                        }
                    }
                    return Err(e);
                },
            };
            Ok(ApplyStep::SetOwner { path, uid: *uid, gid: *gid })
        },
        StateDiffAction::Chmod { fid, mode } => {
            let path = match get_full_path(log, *fid, target_path) {
                Ok(p) => p,
                Err(e) => {
                    proof {
                        let f = match e {
                            ApplyError::UnknownFid(ff) => ff,
                            _ => 0u64,
                        };
                        if a.fids().len() >= 2 && a.fids()[1] == f {
                            assert(a.fids().contains(f));
                        } else {
                            assert(a.fids()[0] == f);
                            assert(a.fids().contains(f));
                        }
                    }
                    return Err(e);
                },
            };
            Ok(ApplyStep::SetMode { path, mode: *mode })
        },
        StateDiffAction::Mkdir { fid } => {
            let path = match get_full_path(log, *fid, target_path) {
                Ok(p) => p,
                Err(e) => {
                    proof {
                        let f = match e {
                            ApplyError::UnknownFid(ff) => ff,
                            _ => 0u64,
                        };
                        if a.fids().len() >= 2 && a.fids()[1] == f {
                            assert(a.fids().contains(f));
                        } else {
                            assert(a.fids()[0] == f);
                            assert(a.fids().contains(f));
                        }
                    }
                    return Err(e);
                },
            };
            Ok(ApplyStep::MakeDir { path })
        },
        StateDiffAction::Rmdir { fid } => {
            let path = match get_full_path(log, *fid, target_path) {
                Ok(p) => p,
                Err(e) => {
                    proof {
                        let f = match e {
                            ApplyError::UnknownFid(ff) => ff,
                            _ => 0u64,
                        };
                        if a.fids().len() >= 2 && a.fids()[1] == f {
                            assert(a.fids().contains(f));
                        } else {
                            assert(a.fids()[0] == f);
                            assert(a.fids().contains(f));
                        }
                    }
                    return Err(e);
                },
            };
            Ok(ApplyStep::RemoveDir { path })
        },
        StateDiffAction::Symlink { link_fid, target_path: sl_target, uid, gid } => {
            let path = match get_full_path(log, *link_fid, target_path) {
                Ok(p) => p,
                Err(e) => {
                    proof {
                        let f = match e {
                            ApplyError::UnknownFid(ff) => ff,
                            _ => 0u64,
                        };
                        if a.fids().len() >= 2 && a.fids()[1] == f {
                            assert(a.fids().contains(f));
                        } else {
                            assert(a.fids()[0] == f);
                            assert(a.fids().contains(f));
                        }
                    }
                    return Err(e);
                },
            };
            Ok(ApplyStep::MakeSymlink {
                path,
                target: crate::statediff::clone_bytes(sl_target),
                uid: *uid,
                gid: *gid,
            })
        },
    }
}

/// Whether a missing object is only a warning for this step: removals and
/// attribute changes may race a later deletion in the same log, so replay
/// continues; every other step must succeed.
pub fn missing_is_warning(st: &ApplyStep) -> (r: bool)
    ensures
        r <==> (st matches ApplyStep::RemoveFile { .. } || st matches ApplyStep::RemoveDir { .. }
            || st matches ApplyStep::SetOwner { .. } || st matches ApplyStep::SetMode { .. }),
{
    match st {
        ApplyStep::RemoveFile { .. } => true,
        ApplyStep::RemoveDir { .. } => true,
        ApplyStep::SetOwner { .. } => true,
        ApplyStep::SetMode { .. } => true,
        _ => false,
    }
}

/// Whether missing parent directories are created before this step: the
/// steps that bring an object into being (or move one in) create their
/// parents on demand.
pub fn creates_parents(st: &ApplyStep) -> (r: bool)
    ensures
        r <==> (st matches ApplyStep::CreateFile { .. } || st matches ApplyStep::WriteAt { .. }
            || st matches ApplyStep::SetLen { .. } || st matches ApplyStep::MoveEntry { .. }
            || st matches ApplyStep::HardLink { .. } || st matches ApplyStep::MakeSymlink { .. }),
{
    match st {
        ApplyStep::CreateFile { .. } => true,
        ApplyStep::WriteAt { .. } => true,
        ApplyStep::SetLen { .. } => true,
        ApplyStep::MoveEntry { .. } => true,
        ApplyStep::HardLink { .. } => true,
        ApplyStep::MakeSymlink { .. } => true,
        _ => false,
    }
}

/// Copy `v[from..to]`.
fn bytes_range(v: &Vec<u8>, from: usize, to: usize) -> (r: Vec<u8>)
    requires
        from <= to <= v@.len(),
    ensures
        r@ == v@.subrange(from as int, to as int),
{
    slice_to_vec(slice_subrange(v.as_slice(), from, to))
}

/// Decode the mode-tagged body of a `get` payload back into a log.
///
/// `n` carries the encoding raw; `z` is decompressed with the cached
/// dictionary when one is at hand, else plainly; `d` carries a new
/// dictionary, returned to the caller for persisting, followed by a `z`
/// payload compressed with it. Every well-formed frame of a bounded log
/// decodes to exactly that log.
pub fn decode_payload(body: &Vec<u8>, cached_dict: Option<&Vec<u8>>) -> (r: Result<
    (StateDiffLog, Option<Vec<u8>>),
    ApplyError,
>)
    ensures
        body@.len() == 0 ==> r == Err::<(StateDiffLog, Option<Vec<u8>>), ApplyError>(
            ApplyError::Truncated,
        ),
        body@.len() >= 1 && body@[0] != 110 && body@[0] != 122 && body@[0] != 100 ==> r
            == Err::<(StateDiffLog, Option<Vec<u8>>), ApplyError>(
            ApplyError::UnknownHeader(body@[0]),
        ),
        forall|lm: LogModel|
            log_bounded(lm) && body@ == seq![110u8] + encode_log_spec(lm) ==> match r {
                Ok((l, nd)) => l.model() == lm && nd is None,
                Err(_) => false,
            },
        forall|lm: LogModel|
            log_bounded(lm) && cached_dict is None && body@ == seq![122u8] + compress_of(
                encode_log_spec(lm),
            ) ==> match r {
                Ok((l, nd)) => l.model() == lm && nd is None,
                Err(_) => false,
            },
        forall|lm: LogModel|
            log_bounded(lm) && (cached_dict matches Some(d) && body@ == seq![122u8]
                + dict_compress_of(encode_log_spec(lm), d@)) ==> match r {
                Ok((l, nd)) => l.model() == lm && nd is None,
                Err(_) => false,
            },
        forall|lm: LogModel, d: Seq<u8>|
            log_bounded(lm) && d.len() <= u32::MAX && body@ == seq![100u8] + spec_u32_to_le_bytes(
                d.len() as u32,
            ) + d + seq![122u8] + dict_compress_of(encode_log_spec(lm), d) ==> match r {
                Ok((l, nd)) => l.model() == lm && (nd matches Some(v) && v@ == d),
                Err(_) => false,
            },
{
    if body.len() == 0 {
        return Err(ApplyError::Truncated);
    }
    let h = body[0];
    if h == 110 {
        let rest = bytes_range(body, 1, body.len());
        proof {
            assert forall|lm: LogModel|
                log_bounded(lm) && body@ == seq![110u8] + encode_log_spec(lm) implies rest@
                == encode_log_spec(lm) by {
                assert(rest@ =~= encode_log_spec(lm));
            }
        }
        match decode_statediff(&rest) {
            Some(l) => {
                proof {
                    assert forall|lm: LogModel|
                        log_bounded(lm) && body@ == seq![110u8] + encode_log_spec(lm) implies
                    l.model() == lm by {
                        crate::codec::lemma_decode_encode(lm);
                    }
                }
                Ok((l, None))
            },
            None => {
                proof {
                    assert forall|lm: LogModel|
                        log_bounded(lm) && body@ == seq![110u8] + encode_log_spec(lm) implies
                    false by {
                        crate::codec::lemma_decode_encode(lm);
                    }
                }
                Err(ApplyError::MalformedLog)
            },
        }
    } else if h == 122 {
        let rest = bytes_range(body, 1, body.len());
        decode_compressed(&rest, cached_dict, Ghost(body@))
    } else if h == 100 {
        if body.len() < 5 {
            proof {
                assert forall|lm: LogModel, d: Seq<u8>|
                    log_bounded(lm) && d.len() <= u32::MAX && body@ == seq![100u8]
                        + spec_u32_to_le_bytes(d.len() as u32) + d + seq![122u8]
                        + dict_compress_of(encode_log_spec(lm), d) implies false by {
                    vstd::bytes::lemma_auto_spec_u32_to_from_le_bytes();
                }
            }
            return Err(ApplyError::Truncated);
        }
        let lenb = slice_subrange(body.as_slice(), 1, 5);
        let dict_len_u32 = u32_from_le_bytes(lenb);
        let dict_len = dict_len_u32 as usize;
        if body.len() - 5 < dict_len || body.len() - 5 - dict_len < 1 {
            proof {
                assert forall|lm: LogModel, d: Seq<u8>|
                    log_bounded(lm) && d.len() <= u32::MAX && body@ == seq![100u8]
                        + spec_u32_to_le_bytes(d.len() as u32) + d + seq![122u8]
                        + dict_compress_of(encode_log_spec(lm), d) implies false by {
                    vstd::bytes::lemma_auto_spec_u32_to_from_le_bytes();
                    assert(body@.subrange(1, 5) =~= spec_u32_to_le_bytes(d.len() as u32));
                }
            }
            return Err(ApplyError::Truncated);
        }
        let dict = bytes_range(body, 5, 5 + dict_len);
        let marker = body[5 + dict_len];
        if marker != 122 {
            proof {
                assert forall|lm: LogModel, d: Seq<u8>|
                    log_bounded(lm) && d.len() <= u32::MAX && body@ == seq![100u8]
                        + spec_u32_to_le_bytes(d.len() as u32) + d + seq![122u8]
                        + dict_compress_of(encode_log_spec(lm), d) implies false by {
                    vstd::bytes::lemma_auto_spec_u32_to_from_le_bytes();
                    assert(body@.subrange(1, 5) =~= spec_u32_to_le_bytes(d.len() as u32));
                    assert(body@[5 + d.len() as int] == 122);
                }
            }
            return Err(ApplyError::ExpectedCompressed);
        }
        let comp = bytes_range(body, 5 + dict_len + 1, body.len());
        match zstd_decompress_dict(&comp, &dict) {
            Ok(raw) => {
                match decode_statediff(&raw) {
                    Some(l) => {
                        proof {
                            lemma_dict_frame_decodes(body@, dict@, comp@, raw@, l);
                        }
                        Ok((l, Some(dict)))
                    },
                    None => {
                        proof {
                            lemma_dict_frame_fails(body@, dict@, comp@, Some(raw@));
                        }
                        Err(ApplyError::MalformedLog)
                    },
                }
            },
            Err(_) => {
                proof {
                    lemma_dict_frame_fails(body@, dict@, comp@, None);
                }
                Err(ApplyError::DecompressFailed)
            },
        }
    } else {
        Err(ApplyError::UnknownHeader(h))
    }
}

/// The `z` case of `decode_payload`: decompress with the cached
/// dictionary if one is at hand, else plainly, then decode.
fn decode_compressed(
    rest: &Vec<u8>,
    cached_dict: Option<&Vec<u8>>,
    body: Ghost<Seq<u8>>,
) -> (r: Result<(StateDiffLog, Option<Vec<u8>>), ApplyError>)
    requires
        body@.len() >= 1 && body@[0] == 122,
        rest@ == body@.subrange(1, body@.len() as int),
    ensures
        forall|lm: LogModel|
            log_bounded(lm) && cached_dict is None && body@ == seq![122u8] + compress_of(
                encode_log_spec(lm),
            ) ==> match r {
                Ok((l, nd)) => l.model() == lm && nd is None,
                Err(_) => false,
            },
        forall|lm: LogModel|
            log_bounded(lm) && (cached_dict matches Some(d) && body@ == seq![122u8]
                + dict_compress_of(encode_log_spec(lm), d@)) ==> match r {
                Ok((l, nd)) => l.model() == lm && nd is None,
                Err(_) => false,
            },
{
    let raw = match cached_dict {
        Some(d) => zstd_decompress_dict(rest, d),
        None => zstd_decompress(rest),
    };
    match raw {
        Ok(v) => {
            match decode_statediff(&v) {
                Some(l) => {
                    proof {
                        assert forall|lm: LogModel|
                            log_bounded(lm) && cached_dict is None && body@ == seq![122u8]
                                + compress_of(encode_log_spec(lm)) implies l.model() == lm by {
                            assert(rest@ =~= compress_of(encode_log_spec(lm)));
                            crate::codec::lemma_decode_encode(lm);
                        }
                        assert forall|lm: LogModel|
                            log_bounded(lm) && (cached_dict matches Some(d) && body@ == seq![122u8]
                                + dict_compress_of(encode_log_spec(lm), d@)) implies l.model()
                            == lm by {
                            let d = cached_dict.unwrap();
                            assert(rest@ =~= dict_compress_of(encode_log_spec(lm), d@));
                            crate::codec::lemma_decode_encode(lm);
                        }
                    }
                    Ok((l, None))
                },
                None => {
                    proof {
                        assert forall|lm: LogModel|
                            log_bounded(lm) && cached_dict is None && body@ == seq![122u8]
                                + compress_of(encode_log_spec(lm)) implies false by {
                            assert(rest@ =~= compress_of(encode_log_spec(lm)));
                            crate::codec::lemma_decode_encode(lm);
                        }
                        assert forall|lm: LogModel|
                            log_bounded(lm) && (cached_dict matches Some(d) && body@ == seq![122u8]
                                + dict_compress_of(encode_log_spec(lm), d@)) implies false by {
                            let d = cached_dict.unwrap();
                            assert(rest@ =~= dict_compress_of(encode_log_spec(lm), d@));
                            crate::codec::lemma_decode_encode(lm);
                        }
                    }
                    Err(ApplyError::MalformedLog)
                },
            }
        },
        Err(_) => {
            proof {
                assert forall|lm: LogModel|
                    log_bounded(lm) && cached_dict is None && body@ == seq![122u8] + compress_of(
                        encode_log_spec(lm),
                    ) implies false by {
                    assert(rest@ =~= compress_of(encode_log_spec(lm)));
                }
                assert forall|lm: LogModel|
                    log_bounded(lm) && (cached_dict matches Some(d) && body@ == seq![122u8]
                        + dict_compress_of(encode_log_spec(lm), d@)) implies false by {
                    let d = cached_dict.unwrap();
                    assert(rest@ =~= dict_compress_of(encode_log_spec(lm), d@));
                }
            }
            Err(ApplyError::DecompressFailed)
        },
    }
}

/// In a well-formed `d` frame the parsed pieces are the dictionary and
/// the compressed encoding, so the decoded log is the one framed.
proof fn lemma_dict_frame_decodes(
    body: Seq<u8>,
    dict: Seq<u8>,
    comp: Seq<u8>,
    raw: Seq<u8>,
    l: StateDiffLog,
)
    requires
        body.len() >= 5,
        dict == body.subrange(5, 5 + dict.len() as int),
        5 + dict.len() < body.len(),
        comp == body.subrange(5 + dict.len() as int + 1, body.len() as int),
        dict.len() == spec_u32_from_le_bytes_of(body) as int,
        forall|x: Seq<u8>| comp == dict_compress_of(x, dict) ==> raw == x,
        decode_log_spec(raw) == Some(l.model()),
    ensures
        forall|lm: LogModel, d: Seq<u8>|
            log_bounded(lm) && d.len() <= u32::MAX && body == seq![100u8] + spec_u32_to_le_bytes(
                d.len() as u32,
            ) + d + seq![122u8] + dict_compress_of(encode_log_spec(lm), d) ==> l.model() == lm
                && dict == d,
{
    assert forall|lm: LogModel, d: Seq<u8>|
        log_bounded(lm) && d.len() <= u32::MAX && body == seq![100u8] + spec_u32_to_le_bytes(
            d.len() as u32,
        ) + d + seq![122u8] + dict_compress_of(encode_log_spec(lm), d) implies l.model() == lm
        && dict == d by {
        vstd::bytes::lemma_auto_spec_u32_to_from_le_bytes();
        assert(body.subrange(1, 5) =~= spec_u32_to_le_bytes(d.len() as u32));
        assert(dict.len() == d.len());
        assert(dict =~= d);
        assert(comp =~= dict_compress_of(encode_log_spec(lm), d));
        assert(raw == encode_log_spec(lm));
        crate::codec::lemma_decode_encode(lm);
    }
}

/// In a well-formed `d` frame neither decompression nor decoding can
/// fail.
proof fn lemma_dict_frame_fails(body: Seq<u8>, dict: Seq<u8>, comp: Seq<u8>, raw: Option<Seq<u8>>)
    requires
        body.len() >= 5,
        dict == body.subrange(5, 5 + dict.len() as int),
        5 + dict.len() < body.len(),
        comp == body.subrange(5 + dict.len() as int + 1, body.len() as int),
        dict.len() == spec_u32_from_le_bytes_of(body) as int,
        raw matches Some(v) ==> (forall|x: Seq<u8>| comp == dict_compress_of(x, dict) ==> v == x)
            && decode_log_spec(v) is None,
        raw is None ==> forall|x: Seq<u8>| comp != dict_compress_of(x, dict),
    ensures
        forall|lm: LogModel, d: Seq<u8>|
            log_bounded(lm) && d.len() <= u32::MAX && body == seq![100u8] + spec_u32_to_le_bytes(
                d.len() as u32,
            ) + d + seq![122u8] + dict_compress_of(encode_log_spec(lm), d) ==> false,
{
    assert forall|lm: LogModel, d: Seq<u8>|
        log_bounded(lm) && d.len() <= u32::MAX && body == seq![100u8] + spec_u32_to_le_bytes(
            d.len() as u32,
        ) + d + seq![122u8] + dict_compress_of(encode_log_spec(lm), d) implies false by {
        vstd::bytes::lemma_auto_spec_u32_to_from_le_bytes();
        assert(body.subrange(1, 5) =~= spec_u32_to_le_bytes(d.len() as u32));
        assert(dict.len() == d.len());
        assert(dict =~= d);
        assert(comp =~= dict_compress_of(encode_log_spec(lm), d));
        match raw {
            Some(v) => {
                assert(v == encode_log_spec(lm));
                crate::codec::lemma_decode_encode(lm);
            },
            None => {},
        }
    }
}

/// The dictionary length a `d` frame declares.
pub open spec fn spec_u32_from_le_bytes_of(body: Seq<u8>) -> u32 {
    vstd::bytes::spec_u32_from_le_bytes(body.subrange(1, 5))
}

} // verus!
