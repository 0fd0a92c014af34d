use vstd::prelude::*;

use vstd::bytes::{
    lemma_auto_spec_u32_to_from_le_bytes, lemma_auto_spec_u64_to_from_le_bytes,
    spec_u32_from_le_bytes, spec_u32_to_le_bytes, spec_u64_from_le_bytes, spec_u64_to_le_bytes,
    u32_from_le_bytes, u32_to_le_bytes, u64_from_le_bytes, u64_to_le_bytes,
};
use vstd::slice::slice_subrange;

use crate::statediff::{actions_model, entries_model, ActionModel, LogModel, StateDiffAction, StateDiffLog};

verus! {

// ============================================================
// Wire format, specified.
//
// All integers are little-endian. Byte strings are prefixed by their 64-bit
// length. A log is: FID-entry count, the entries (FID, path), action count,
// the actions. An action is a tag byte (its variant's declaration position)
// followed by its fields in declaration order.
// ============================================================
pub open spec fn enc_u64(x: u64) -> Seq<u8> {
    spec_u64_to_le_bytes(x)
}

pub open spec fn enc_u32(x: u32) -> Seq<u8> {
    spec_u32_to_le_bytes(x)
}

pub open spec fn enc_bytes(b: Seq<u8>) -> Seq<u8>
    recommends
        b.len() <= u64::MAX,
{
    enc_u64(b.len() as u64) + b
}

/// The tag byte of an action: its position in the variant declaration order.
pub open spec fn action_tag(a: ActionModel) -> u8 {
    match a {
        ActionModel::Create { .. } => 0,
        ActionModel::Write { .. } => 1,
        ActionModel::Unlink { .. } => 2,
        ActionModel::Truncate { .. } => 3,
        ActionModel::Rename { .. } => 4,
        ActionModel::Link { .. } => 5,
        ActionModel::Chown { .. } => 6,
        ActionModel::Chmod { .. } => 7,
        ActionModel::Mkdir { .. } => 8,
        ActionModel::Rmdir { .. } => 9,
        ActionModel::Symlink { .. } => 10,
    }
}

pub open spec fn enc_action(a: ActionModel) -> Seq<u8> {
    match a {
        ActionModel::Create { fid, uid, gid, mode } => seq![0u8] + enc_u64(fid) + enc_u32(uid)
            + enc_u32(gid) + enc_u32(mode),
        ActionModel::Write { fid, offset, data } => seq![1u8] + enc_u64(fid) + enc_u64(offset)
            + enc_bytes(data),
        ActionModel::Unlink { fid } => seq![2u8] + enc_u64(fid),
        ActionModel::Truncate { fid, size } => seq![3u8] + enc_u64(fid) + enc_u64(size),
        ActionModel::Rename { from_fid, to_fid } => seq![4u8] + enc_u64(from_fid) + enc_u64(
            to_fid,
        ),
        ActionModel::Link { source_fid, new_link_fid } => seq![5u8] + enc_u64(source_fid)
            + enc_u64(new_link_fid),
        ActionModel::Chown { fid, uid, gid } => seq![6u8] + enc_u64(fid) + enc_u32(uid) + enc_u32(
            gid,
        ),
        ActionModel::Chmod { fid, mode } => seq![7u8] + enc_u64(fid) + enc_u32(mode),
        ActionModel::Mkdir { fid } => seq![8u8] + enc_u64(fid),
        ActionModel::Rmdir { fid } => seq![9u8] + enc_u64(fid),
        ActionModel::Symlink { link_fid, target_path, uid, gid } => seq![10u8] + enc_u64(link_fid)
            + enc_bytes(target_path) + enc_u32(uid) + enc_u32(gid),
    }
}

pub open spec fn enc_entry(e: (u64, Seq<u8>)) -> Seq<u8> {
    enc_u64(e.0) + enc_bytes(e.1)
}

pub open spec fn enc_entry_list(m: Seq<(u64, Seq<u8>)>) -> Seq<u8>
    decreases m.len(),
{
    if m.len() == 0 {
        Seq::empty()
    } else {
        enc_entry(m[0]) + enc_entry_list(m.drop_first())
    }
}

pub open spec fn enc_action_list(s: Seq<ActionModel>) -> Seq<u8>
    decreases s.len(),
{
    if s.len() == 0 {
        Seq::empty()
    } else {
        enc_action(s[0]) + enc_action_list(s.drop_first())
    }
}

pub open spec fn encode_log_spec(l: LogModel) -> Seq<u8> {
    enc_u64(l.fid_map.len() as u64) + enc_entry_list(l.fid_map) + enc_u64(l.actions.len() as u64)
        + enc_action_list(l.actions)
}

// ============================================================
// Wire format, read back: a total specification parser. Each function takes
// the buffer and a position and yields the parsed value and the next
// position, or `None` on malformed input.
// ============================================================
pub open spec fn dec_u64(s: Seq<u8>, i: int) -> Option<(u64, int)> {
    if 0 <= i && i + 8 <= s.len() {
        Some((spec_u64_from_le_bytes(s.subrange(i, i + 8)), i + 8))
    } else {
        None
    }
}

pub open spec fn dec_u32(s: Seq<u8>, i: int) -> Option<(u32, int)> {
    if 0 <= i && i + 4 <= s.len() {
        Some((spec_u32_from_le_bytes(s.subrange(i, i + 4)), i + 4))
    } else {
        None
    }
}

pub open spec fn dec_bytes(s: Seq<u8>, i: int) -> Option<(Seq<u8>, int)> {
    match dec_u64(s, i) {
        None => None,
        Some((n, j)) => if j + n <= s.len() {
            Some((s.subrange(j, j + n), j + n))
        } else {
            None
        },
    }
}

pub open spec fn dec_action(s: Seq<u8>, i: int) -> Option<(ActionModel, int)> {
    if !(0 <= i < s.len()) {
        None
    } else {
        let tag = s[i];
        if tag == 0 {
            match dec_u64(s, i + 1) {
                None => None,
                Some((fid, j)) => match dec_u32(s, j) {
                    None => None,
                    Some((uid, j2)) => match dec_u32(s, j2) {
                        None => None,
                        Some((gid, j3)) => match dec_u32(s, j3) {
                            None => None,
                            Some((mode, j4)) => Some(
                                (ActionModel::Create { fid, uid, gid, mode }, j4),
                            ),
                        },
                    },
                },
            }
        } else if tag == 1 {
            match dec_u64(s, i + 1) {
                None => None,
                Some((fid, j)) => match dec_u64(s, j) {
                    None => None,
                    Some((offset, j2)) => match dec_bytes(s, j2) {
                        None => None,
                        Some((data, j3)) => Some((ActionModel::Write { fid, offset, data }, j3)),
                    },
                },
            }
        } else if tag == 2 {
            match dec_u64(s, i + 1) {
                None => None,
                Some((fid, j)) => Some((ActionModel::Unlink { fid }, j)),
            }
        } else if tag == 3 {
            match dec_u64(s, i + 1) {
                None => None,
                Some((fid, j)) => match dec_u64(s, j) {
                    None => None,
                    Some((size, j2)) => Some((ActionModel::Truncate { fid, size }, j2)),
                },
            }
        } else if tag == 4 {
            match dec_u64(s, i + 1) {
                None => None,
                Some((from_fid, j)) => match dec_u64(s, j) {
                    None => None,
                    Some((to_fid, j2)) => Some((ActionModel::Rename { from_fid, to_fid }, j2)),
                },
            }
        } else if tag == 5 {
            match dec_u64(s, i + 1) {
                None => None,
                Some((source_fid, j)) => match dec_u64(s, j) {
                    None => None,
                    Some((new_link_fid, j2)) => Some(
                        (ActionModel::Link { source_fid, new_link_fid }, j2),
                    ),
                },
            }
        } else if tag == 6 {
            match dec_u64(s, i + 1) {
                None => None,
                Some((fid, j)) => match dec_u32(s, j) {
                    None => None,
                    Some((uid, j2)) => match dec_u32(s, j2) {
                        None => None,
                        Some((gid, j3)) => Some((ActionModel::Chown { fid, uid, gid }, j3)),
                    },
                },
            }
        } else if tag == 7 {
            match dec_u64(s, i + 1) {
                None => None,
                Some((fid, j)) => match dec_u32(s, j) {
                    None => None,
                    Some((mode, j2)) => Some((ActionModel::Chmod { fid, mode }, j2)),
                },
            }
        } else if tag == 8 {
            match dec_u64(s, i + 1) {
                None => None,
                Some((fid, j)) => Some((ActionModel::Mkdir { fid }, j)),
            }
        } else if tag == 9 {
            match dec_u64(s, i + 1) {
                None => None,
                Some((fid, j)) => Some((ActionModel::Rmdir { fid }, j)),
            }
        } else if tag == 10 {
            match dec_u64(s, i + 1) {
                None => None,
                Some((link_fid, j)) => match dec_bytes(s, j) {
                    None => None,
                    Some((target_path, j2)) => match dec_u32(s, j2) {
                        None => None,
                        Some((uid, j3)) => match dec_u32(s, j3) {
                            None => None,
                            Some((gid, j4)) => Some(
                                (ActionModel::Symlink { link_fid, target_path, uid, gid }, j4),
                            ),
                        },
                    },
                },
            }
        } else {
            None
        }
    }
}

pub open spec fn dec_entry(s: Seq<u8>, i: int) -> Option<((u64, Seq<u8>), int)> {
    match dec_u64(s, i) {
        None => None,
        Some((f, j)) => match dec_bytes(s, j) {
            None => None,
            Some((p, k)) => Some(((f, p), k)),
        },
    }
}

pub open spec fn dec_entry_list(s: Seq<u8>, i: int, cnt: nat) -> Option<(Seq<(u64, Seq<u8>)>, int)>
    decreases cnt,
{
    if cnt == 0 {
        Some((Seq::empty(), i))
    } else {
        match dec_entry(s, i) {
            None => None,
            Some((e, j)) => match dec_entry_list(s, j, (cnt - 1) as nat) {
                None => None,
                Some((rest, k)) => Some((seq![e] + rest, k)),
            },
        }
    }
}

pub open spec fn dec_action_list(s: Seq<u8>, i: int, cnt: nat) -> Option<(Seq<ActionModel>, int)>
    decreases cnt,
{
    if cnt == 0 {
        Some((Seq::empty(), i))
    } else {
        match dec_action(s, i) {
            None => None,
            Some((a, j)) => match dec_action_list(s, j, (cnt - 1) as nat) {
                None => None,
                Some((rest, k)) => Some((seq![a] + rest, k)),
            },
        }
    }
}

/// The log a buffer denotes, if it is a well-formed encoding consumed in
/// full.
pub open spec fn decode_log_spec(s: Seq<u8>) -> Option<LogModel> {
    match dec_u64(s, 0) {
        None => None,
        Some((fcnt, i)) => match dec_entry_list(s, i, fcnt as nat) {
            None => None,
            Some((fm, j)) => match dec_u64(s, j) {
                None => None,
                Some((acnt, k)) => match dec_action_list(s, k, acnt as nat) {
                    None => None,
                    Some((acts, end)) => if end == s.len() {
                        Some(LogModel { fid_map: fm, actions: acts })
                    } else {
                        None
                    },
                },
            },
        },
    }
}

// ============================================================
// Executable encoder.
// ============================================================
fn push_u64(out: &mut Vec<u8>, x: u64)
    ensures
        final(out)@ == old(out)@ + enc_u64(x),
{
    let mut b = u64_to_le_bytes(x);
    out.append(&mut b);
}

fn push_u32(out: &mut Vec<u8>, x: u32)
    ensures
        final(out)@ == old(out)@ + enc_u32(x),
{
    let mut b = u32_to_le_bytes(x);
    out.append(&mut b);
}

fn push_bytes(out: &mut Vec<u8>, b: &Vec<u8>)
    ensures
        final(out)@ == old(out)@ + enc_bytes(b@),
{
    push_u64(out, b.len() as u64);
    out.extend_from_slice(b.as_slice());
    assert(out@ =~= old(out)@ + enc_bytes(b@));
}

fn push_action(out: &mut Vec<u8>, a: &StateDiffAction)
    ensures
        final(out)@ == old(out)@ + enc_action(a.model()),
{
    match a {
        StateDiffAction::Create { fid, uid, gid, mode } => {
            out.push(0u8);
            push_u64(out, *fid);
            push_u32(out, *uid);
            push_u32(out, *gid);
            push_u32(out, *mode);
            assert(out@ =~= old(out)@ + enc_action(a.model()));
        },
        StateDiffAction::Write { fid, offset, data } => {
            out.push(1u8);
            push_u64(out, *fid);
            push_u64(out, *offset);
            push_bytes(out, data);
            assert(out@ =~= old(out)@ + enc_action(a.model()));
        },
        StateDiffAction::Unlink { fid } => {
            out.push(2u8);
            push_u64(out, *fid);
            assert(out@ =~= old(out)@ + enc_action(a.model()));
        },
        StateDiffAction::Truncate { fid, size } => {
            out.push(3u8);
            push_u64(out, *fid);
            push_u64(out, *size);
            assert(out@ =~= old(out)@ + enc_action(a.model()));
        },
        StateDiffAction::Rename { from_fid, to_fid } => {
            out.push(4u8);
            push_u64(out, *from_fid);
            push_u64(out, *to_fid);
            assert(out@ =~= old(out)@ + enc_action(a.model()));
        },
        StateDiffAction::Link { source_fid, new_link_fid } => {
            out.push(5u8);
            push_u64(out, *source_fid);
            push_u64(out, *new_link_fid);
            assert(out@ =~= old(out)@ + enc_action(a.model()));
        },
        StateDiffAction::Chown { fid, uid, gid } => {
            out.push(6u8);
            push_u64(out, *fid);
            push_u32(out, *uid);
            push_u32(out, *gid);
            assert(out@ =~= old(out)@ + enc_action(a.model()));
        },
        StateDiffAction::Chmod { fid, mode } => {
            out.push(7u8);
            push_u64(out, *fid);
            push_u32(out, *mode);
            assert(out@ =~= old(out)@ + enc_action(a.model()));
        },
        StateDiffAction::Mkdir { fid } => {
            out.push(8u8);
            push_u64(out, *fid);
            assert(out@ =~= old(out)@ + enc_action(a.model()));
        },
        StateDiffAction::Rmdir { fid } => {
            out.push(9u8);
            push_u64(out, *fid);
            assert(out@ =~= old(out)@ + enc_action(a.model()));
        },
        StateDiffAction::Symlink { link_fid, target_path, uid, gid } => {
            out.push(10u8);
            push_u64(out, *link_fid);
            push_bytes(out, target_path);
            push_u32(out, *uid);
            push_u32(out, *gid);
            assert(out@ =~= old(out)@ + enc_action(a.model()));
        },
    }
}

/// `enc_entry_list` grows at the back one entry at a time.
pub proof fn lemma_enc_entry_list_snoc(m: Seq<(u64, Seq<u8>)>)
    requires
        m.len() > 0,
    ensures
        enc_entry_list(m) == enc_entry_list(m.drop_last()) + enc_entry(m.last()),
    decreases m.len(),
{
    if m.len() == 1 {
        assert(m.drop_first().len() == 0);
        assert(enc_entry_list(m) == enc_entry(m[0]) + enc_entry_list(m.drop_first()));
        assert(enc_entry_list(m) =~= enc_entry_list(m.drop_last()) + enc_entry(m.last()));
    } else {
        let t = m.drop_first();
        lemma_enc_entry_list_snoc(t);
        assert(t.drop_last() =~= m.drop_last().drop_first());
        assert(t.last() == m.last());
        assert(enc_entry_list(m.drop_last()) == enc_entry(m[0]) + enc_entry_list(
            m.drop_last().drop_first(),
        ));
        assert(enc_entry_list(m) =~= enc_entry_list(m.drop_last()) + enc_entry(m.last()));
    }
}

/// `enc_action_list` grows at the back one action at a time.
pub proof fn lemma_enc_action_list_snoc(s: Seq<ActionModel>)
    requires
        s.len() > 0,
    ensures
        enc_action_list(s) == enc_action_list(s.drop_last()) + enc_action(s.last()),
    decreases s.len(),
{
    if s.len() == 1 {
        assert(s.drop_first().len() == 0);
        assert(enc_action_list(s) == enc_action(s[0]) + enc_action_list(s.drop_first()));
        assert(enc_action_list(s) =~= enc_action_list(s.drop_last()) + enc_action(s.last()));
    } else {
        let t = s.drop_first();
        lemma_enc_action_list_snoc(t);
        assert(t.drop_last() =~= s.drop_last().drop_first());
        assert(t.last() == s.last());
        assert(enc_action_list(s.drop_last()) == enc_action(s[0]) + enc_action_list(
            s.drop_last().drop_first(),
        ));
        assert(enc_action_list(s) =~= enc_action_list(s.drop_last()) + enc_action(s.last()));
    }
}

/// Serialise a log into its wire form.
pub fn encode_statediff(log: &StateDiffLog) -> (r: Vec<u8>)
    ensures
        r@ == encode_log_spec(log.model()),
{
    let ghost m = log.model();
    let mut out: Vec<u8> = Vec::new();
    push_u64(&mut out, log.fid_map.len() as u64);
    assert(m.fid_map.len() == log.fid_map@.len());
    let n = log.fid_map.len();
    let mut i: usize = 0;
    while i < n
        invariant
            n == log.fid_map@.len(),
            m == log.model(),
            0 <= i <= n,
            out@ == enc_u64(n as u64) + enc_entry_list(m.fid_map.subrange(0, i as int)),
        decreases n - i,
    {
        let ghost prefix = m.fid_map.subrange(0, i as int);
        push_u64(&mut out, log.fid_map[i].0);
        push_bytes(&mut out, &log.fid_map[i].1);
        proof {
            let prefix2 = m.fid_map.subrange(0, i + 1);
            assert(prefix2.drop_last() =~= prefix);
            assert(prefix2.last() == m.fid_map[i as int]);
            assert(m.fid_map[i as int] == (log.fid_map@[i as int].0, log.fid_map@[i as int].1@));
            lemma_enc_entry_list_snoc(prefix2);
            assert(out@ =~= enc_u64(n as u64) + enc_entry_list(prefix2));
        }
        i += 1;
    }
    assert(m.fid_map.subrange(0, n as int) =~= m.fid_map);
    push_u64(&mut out, log.actions.len() as u64);
    let ghost head = enc_u64(n as u64) + enc_entry_list(m.fid_map) + enc_u64(
        log.actions@.len() as u64,
    );
    assert(out@ =~= head);
    let an = log.actions.len();
    let mut k: usize = 0;
    while k < an
        invariant
            an == log.actions@.len(),
            m == log.model(),
            head == enc_u64(log.fid_map@.len() as u64) + enc_entry_list(m.fid_map) + enc_u64(
                an as u64,
            ),
            0 <= k <= an,
            out@ == head + enc_action_list(m.actions.subrange(0, k as int)),
        decreases an - k,
    {
        let ghost prefix = m.actions.subrange(0, k as int);
        push_action(&mut out, &log.actions[k]);
        proof {
            let prefix2 = m.actions.subrange(0, k + 1);
            assert(prefix2.drop_last() =~= prefix);
            assert(prefix2.last() == m.actions[k as int]);
            assert(m.actions[k as int] == log.actions@[k as int].model());
            lemma_enc_action_list_snoc(prefix2);
            assert(out@ =~= head + enc_action_list(prefix2));
        }
        k += 1;
    }
    proof {
        assert(m.actions.subrange(0, an as int) =~= m.actions);
        assert(out@ =~= encode_log_spec(m));
    }
    out
}

// ============================================================
// Executable decoder. Each reader's result agrees with the specification
// parser at the same position.
// ============================================================
fn read_u64_at(bytes: &Vec<u8>, pos: usize) -> (r: Option<(u64, usize)>)
    ensures
        match r {
            Some((x, j)) => dec_u64(bytes@, pos as int) == Some((x, j as int)),
            None => dec_u64(bytes@, pos as int) is None,
        },
{
    if bytes.len() >= 8 && pos <= bytes.len() - 8 {
        let s = slice_subrange(bytes.as_slice(), pos, pos + 8);
        let x = u64_from_le_bytes(s);
        Some((x, pos + 8))
    } else {
        None
    }
}

fn read_u32_at(bytes: &Vec<u8>, pos: usize) -> (r: Option<(u32, usize)>)
    ensures
        match r {
            Some((x, j)) => dec_u32(bytes@, pos as int) == Some((x, j as int)),
            None => dec_u32(bytes@, pos as int) is None,
        },
{
    if bytes.len() >= 4 && pos <= bytes.len() - 4 {
        let s = slice_subrange(bytes.as_slice(), pos, pos + 4);
        let x = u32_from_le_bytes(s);
        Some((x, pos + 4))
    } else {
        None
    }
}

fn read_bytes_at(bytes: &Vec<u8>, pos: usize) -> (r: Option<(Vec<u8>, usize)>)
    ensures
        match r {
            Some((v, j)) => dec_bytes(bytes@, pos as int) == Some((v@, j as int)),
            None => dec_bytes(bytes@, pos as int) is None,
        },
{
    match read_u64_at(bytes, pos) {
        None => None,
        Some((n, j)) => {
            if n <= (bytes.len() - j) as u64 {
                let nn = n as usize;
                let v = vstd::slice::slice_to_vec(slice_subrange(bytes.as_slice(), j, j + nn));
                Some((v, j + nn))
            } else {
                None
            }
        },
    }
}

fn read_action_at(bytes: &Vec<u8>, pos: usize) -> (r: Option<(StateDiffAction, usize)>)
    ensures
        match r {
            Some((a, j)) => dec_action(bytes@, pos as int) == Some((a.model(), j as int)),
            None => dec_action(bytes@, pos as int) is None,
        },
{
    if pos >= bytes.len() {
        return None;
    }
    let tag = bytes[pos];
    if tag == 0 {
        match read_u64_at(bytes, pos + 1) {
            None => None,
            Some((fid, j)) => match read_u32_at(bytes, j) {
                None => None,
                Some((uid, j2)) => match read_u32_at(bytes, j2) {
                    None => None,
                    Some((gid, j3)) => match read_u32_at(bytes, j3) {
                        None => None,
                        Some((mode, j4)) => Some(
                            (StateDiffAction::Create { fid, uid, gid, mode }, j4),
                        ),
                    },
                },
            },
        }
    } else if tag == 1 {
        match read_u64_at(bytes, pos + 1) {
            None => None,
            Some((fid, j)) => match read_u64_at(bytes, j) {
                None => None,
                Some((offset, j2)) => match read_bytes_at(bytes, j2) {
                    None => None,
                    Some((data, j3)) => Some((StateDiffAction::Write { fid, offset, data }, j3)),
                },
            },
        }
    } else if tag == 2 {
        match read_u64_at(bytes, pos + 1) {
            None => None,
            Some((fid, j)) => Some((StateDiffAction::Unlink { fid }, j)),
        }
    } else if tag == 3 {
        match read_u64_at(bytes, pos + 1) {
            None => None,
            Some((fid, j)) => match read_u64_at(bytes, j) {
                None => None,
                Some((size, j2)) => Some((StateDiffAction::Truncate { fid, size }, j2)),
            },
        }
    } else if tag == 4 {
        match read_u64_at(bytes, pos + 1) {
            None => None,
            Some((from_fid, j)) => match read_u64_at(bytes, j) {
                None => None,
                Some((to_fid, j2)) => Some((StateDiffAction::Rename { from_fid, to_fid }, j2)),
            },
        }
    } else if tag == 5 {
        match read_u64_at(bytes, pos + 1) {
            None => None,
            Some((source_fid, j)) => match read_u64_at(bytes, j) {
                None => None,
                Some((new_link_fid, j2)) => Some(
                    (StateDiffAction::Link { source_fid, new_link_fid }, j2),
                ),
            },
        }
    } else if tag == 6 {
        match read_u64_at(bytes, pos + 1) {
            None => None,
            Some((fid, j)) => match read_u32_at(bytes, j) {
                None => None,
                Some((uid, j2)) => match read_u32_at(bytes, j2) {
                    None => None,
                    Some((gid, j3)) => Some((StateDiffAction::Chown { fid, uid, gid }, j3)),
                },
            },
        }
    } else if tag == 7 {
        match read_u64_at(bytes, pos + 1) {
            None => None,
            Some((fid, j)) => match read_u32_at(bytes, j) {
                None => None,
                Some((mode, j2)) => Some((StateDiffAction::Chmod { fid, mode }, j2)),
            },
        }
    } else if tag == 8 {
        match read_u64_at(bytes, pos + 1) {
            None => None,
            Some((fid, j)) => Some((StateDiffAction::Mkdir { fid }, j)),
        }
    } else if tag == 9 {
        match read_u64_at(bytes, pos + 1) {
            None => None,
            Some((fid, j)) => Some((StateDiffAction::Rmdir { fid }, j)),
        }
    } else if tag == 10 {
        match read_u64_at(bytes, pos + 1) {
            None => None,
            Some((link_fid, j)) => match read_bytes_at(bytes, j) {
                None => None,
                Some((target_path, j2)) => match read_u32_at(bytes, j2) {
                    None => None,
                    Some((uid, j3)) => match read_u32_at(bytes, j3) {
                        None => None,
                        Some((gid, j4)) => Some(
                            (StateDiffAction::Symlink { link_fid, target_path, uid, gid }, j4),
                        ),
                    },
                },
            },
        }
    } else {
        None
    }
}

/// Deserialise a log from its wire form, consuming the whole buffer.
///
/// Returns the log the buffer denotes, or `None` exactly when the buffer is
/// not a complete well-formed encoding.
pub fn decode_statediff(bytes: &Vec<u8>) -> (r: Option<StateDiffLog>)
    ensures
        match r {
            Some(l) => decode_log_spec(bytes@) == Some(l.model()),
            None => decode_log_spec(bytes@) is None,
        },
{
    let ghost s = bytes@;
    let (fcnt, epos0) = match read_u64_at(bytes, 0) {
        None => {
            return None;
        },
        Some(x) => x,
    };
    let mut entries: Vec<(u64, Vec<u8>)> = Vec::new();
    let mut pos: usize = epos0;
    let mut k: u64 = 0;
    while k < fcnt
        invariant
            s == bytes@,
            dec_u64(s, 0) == Some((fcnt, epos0 as int)),
            0 <= k <= fcnt,
            match dec_entry_list(s, pos as int, (fcnt - k) as nat) {
                None => dec_entry_list(s, epos0 as int, fcnt as nat) is None,
                Some((rest, end)) => dec_entry_list(s, epos0 as int, fcnt as nat) == Some(
                    (entries_model(entries@) + rest, end),
                ),
            },
        decreases fcnt - k,
    {
        let ghost accm = entries_model(entries@);
        let (f, j) = match read_u64_at(bytes, pos) {
            None => {
                assert(dec_entry(s, pos as int) is None);
                assert(dec_entry_list(s, pos as int, (fcnt - k) as nat) is None);
                return None;
            },
            Some(x) => x,
        };
        let (p, j2) = match read_bytes_at(bytes, j) {
            None => {
                assert(dec_entry(s, pos as int) is None);
                assert(dec_entry_list(s, pos as int, (fcnt - k) as nat) is None);
                return None;
            },
            Some(x) => x,
        };
        proof {
            let e = (f, p@);
            assert(dec_entry(s, pos as int) == Some((e, j2 as int)));
            let cnt = (fcnt - k) as nat;
            assert(dec_entry_list(s, pos as int, cnt) == (match dec_entry_list(
                s,
                j2 as int,
                (cnt - 1) as nat,
            ) {
                None => None::<(Seq<(u64, Seq<u8>)>, int)>,
                Some((rest, kk)) => Some((seq![e] + rest, kk)),
            }));
            match dec_entry_list(s, j2 as int, (cnt - 1) as nat) {
                None => {},
                Some((rest, end)) => {
                    assert(accm + (seq![e] + rest) =~= accm.push(e) + rest);
                    assert(entries_model(entries@.push((f, p))) =~= accm.push(e));
                },
            }
        }
        entries.push((f, p));
        pos = j2;
        k = k + 1;
    }
    proof {
        assert(dec_entry_list(s, pos as int, 0) == Some((Seq::<(u64, Seq<u8>)>::empty(), pos as int)));
        assert(entries_model(entries@) + Seq::<(u64, Seq<u8>)>::empty() =~= entries_model(
            entries@,
        ));
    }
    let ghost fm = entries_model(entries@);
    assert(dec_entry_list(s, epos0 as int, fcnt as nat) == Some((fm, pos as int)));
    let (acnt, apos0) = match read_u64_at(bytes, pos) {
        None => {
            return None;
        },
        Some(x) => x,
    };
    let mut actions: Vec<StateDiffAction> = Vec::new();
    let mut pos2: usize = apos0;
    let mut k2: u64 = 0;
    while k2 < acnt
        invariant
            s == bytes@,
            dec_u64(s, 0) == Some((fcnt, epos0 as int)),
            dec_entry_list(s, epos0 as int, fcnt as nat) == Some((fm, pos as int)),
            dec_u64(s, pos as int) == Some((acnt, apos0 as int)),
            0 <= k2 <= acnt,
            match dec_action_list(s, pos2 as int, (acnt - k2) as nat) {
                None => dec_action_list(s, apos0 as int, acnt as nat) is None,
                Some((rest, end)) => dec_action_list(s, apos0 as int, acnt as nat) == Some(
                    (actions_model(actions@) + rest, end),
                ),
            },
        decreases acnt - k2,
    {
        let ghost accm = actions_model(actions@);
        let (a, j) = match read_action_at(bytes, pos2) {
            None => {
                assert(dec_action_list(s, pos2 as int, (acnt - k2) as nat) is None);
                return None;
            },
            Some(x) => x,
        };
        proof {
            let am = a.model();
            let cnt = (acnt - k2) as nat;
            assert(dec_action_list(s, pos2 as int, cnt) == (match dec_action_list(
                s,
                j as int,
                (cnt - 1) as nat,
            ) {
                None => None::<(Seq<ActionModel>, int)>,
                Some((rest, kk)) => Some((seq![am] + rest, kk)),
            }));
            match dec_action_list(s, j as int, (cnt - 1) as nat) {
                None => {},
                Some((rest, end)) => {
                    assert(accm + (seq![am] + rest) =~= accm.push(am) + rest);
                    assert(actions_model(actions@.push(a)) =~= accm.push(am));
                },
            }
        }
        actions.push(a);
        pos2 = j;
        k2 = k2 + 1;
    }
    proof {
        assert(dec_action_list(s, pos2 as int, 0) == Some((Seq::<ActionModel>::empty(), pos2 as int)));
        assert(actions_model(actions@) + Seq::<ActionModel>::empty() =~= actions_model(actions@));
    }
    let ghost am = actions_model(actions@);
    assert(dec_action_list(s, apos0 as int, acnt as nat) == Some((am, pos2 as int)));
    if pos2 != bytes.len() {
        return None;
    }
    let l = StateDiffLog { fid_map: entries, actions };
    assert(l.model() == LogModel { fid_map: fm, actions: am });
    Some(l)
}

// ============================================================
// Round trip: decoding an encoding yields the original log.
// ============================================================
/// Every variable-length field of the action fits the 64-bit length prefix.
pub open spec fn action_bounded(a: ActionModel) -> bool {
    match a {
        ActionModel::Write { data, .. } => data.len() <= u64::MAX,
        ActionModel::Symlink { target_path, .. } => target_path.len() <= u64::MAX,
        _ => true,
    }
}

/// Every count and byte-string length in the log fits its length prefix.
pub open spec fn log_bounded(l: LogModel) -> bool {
    &&& l.fid_map.len() <= u64::MAX
    &&& l.actions.len() <= u64::MAX
    &&& forall|i: int| 0 <= i < l.fid_map.len() ==> (#[trigger] l.fid_map[i]).1.len() <= u64::MAX
    &&& forall|i: int| 0 <= i < l.actions.len() ==> action_bounded(#[trigger] l.actions[i])
}

/// The model of an in-memory log is always bounded: vector lengths fit in
/// `usize`, which fits the 64-bit length prefixes.
pub proof fn lemma_log_model_bounded(log: &StateDiffLog)
    ensures
        log_bounded(log.model()),
{
    let m = log.model();
    assert(log.fid_map.len() == log.fid_map@.len());
    assert(log.actions.len() == log.actions@.len());
    assert(m.fid_map.len() == log.fid_map@.len());
    assert(m.actions.len() == log.actions@.len());
    assert forall|i: int| 0 <= i < m.fid_map.len() implies (#[trigger] m.fid_map[i]).1.len()
        <= u64::MAX by {
        assert(m.fid_map[i].1 == log.fid_map@[i].1@);
        assert(log.fid_map@[i].1.len() == log.fid_map@[i].1@.len());
    }
    assert forall|i: int| 0 <= i < m.actions.len() implies action_bounded(
        #[trigger] m.actions[i],
    ) by {
        assert(m.actions[i] == log.actions@[i].model());
        match log.actions@[i] {
            StateDiffAction::Write { data, .. } => {
                assert(data.len() == data@.len());
            },
            StateDiffAction::Symlink { target_path, .. } => {
                assert(target_path.len() == target_path@.len());
            },
            _ => {},
        }
    }
}

/// Splitting a known concatenation out of a buffer.
pub proof fn lemma_extract(s: Seq<u8>, i: int, a: Seq<u8>, b: Seq<u8>)
    requires
        0 <= i,
        i + a.len() + b.len() <= s.len(),
        s.subrange(i, i + a.len() + b.len()) == a + b,
    ensures
        s.subrange(i, i + a.len()) == a,
        s.subrange(i + a.len(), i + a.len() + b.len()) == b,
{
    assert(s.subrange(i, i + a.len()) =~= a) by {
        assert forall|k: int| 0 <= k < a.len() implies s[i + k] == a[k] by {
            assert(s.subrange(i, i + a.len() + b.len())[k] == s[i + k]);
            assert((a + b)[k] == a[k]);
        }
    }
    assert(s.subrange(i + a.len(), i + a.len() + b.len()) =~= b) by {
        assert forall|k: int| 0 <= k < b.len() implies s[i + a.len() + k] == b[k] by {
            assert(s.subrange(i, i + a.len() + b.len())[a.len() + k] == s[i + a.len() + k]);
            assert((a + b)[a.len() + k] == b[k]);
        }
    }
}

pub proof fn lemma_rt_u64(s: Seq<u8>, i: int, x: u64)
    requires
        0 <= i,
        i + 8 <= s.len(),
        s.subrange(i, i + 8) == enc_u64(x),
    ensures
        dec_u64(s, i) == Some((x, i + 8)),
{
    lemma_auto_spec_u64_to_from_le_bytes();
    assert(enc_u64(x).len() == 8);
    assert(spec_u64_from_le_bytes(enc_u64(x)) == x);
}

pub proof fn lemma_rt_u32(s: Seq<u8>, i: int, x: u32)
    requires
        0 <= i,
        i + 4 <= s.len(),
        s.subrange(i, i + 4) == enc_u32(x),
    ensures
        dec_u32(s, i) == Some((x, i + 4)),
{
    lemma_auto_spec_u32_to_from_le_bytes();
    assert(enc_u32(x).len() == 4);
    assert(spec_u32_from_le_bytes(enc_u32(x)) == x);
}

pub proof fn lemma_rt_bytes(s: Seq<u8>, i: int, b: Seq<u8>)
    requires
        0 <= i,
        b.len() <= u64::MAX,
        i + 8 + b.len() <= s.len(),
        s.subrange(i, i + 8 + b.len()) == enc_bytes(b),
    ensures
        dec_bytes(s, i) == Some((b, i + 8 + b.len())),
{
    lemma_auto_spec_u64_to_from_le_bytes();
    let lb = enc_u64(b.len() as u64);
    lemma_extract(s, i, lb, b);
    lemma_rt_u64(s, i, b.len() as u64);
}

pub proof fn lemma_rt_entry(s: Seq<u8>, i: int, e: (u64, Seq<u8>))
    requires
        0 <= i,
        e.1.len() <= u64::MAX,
        i + enc_entry(e).len() <= s.len(),
        s.subrange(i, i + enc_entry(e).len()) == enc_entry(e),
    ensures
        dec_entry(s, i) == Some((e, i + enc_entry(e).len())),
{
    lemma_auto_spec_u64_to_from_le_bytes();
    let fb = enc_u64(e.0);
    let pb = enc_bytes(e.1);
    lemma_extract(s, i, fb, pb);
    lemma_rt_u64(s, i, e.0);
    lemma_rt_bytes(s, i + 8, e.1);
}

pub proof fn lemma_rt_entry_list(s: Seq<u8>, i: int, m: Seq<(u64, Seq<u8>)>)
    requires
        0 <= i,
        forall|k: int| 0 <= k < m.len() ==> (#[trigger] m[k]).1.len() <= u64::MAX,
        i + enc_entry_list(m).len() <= s.len(),
        s.subrange(i, i + enc_entry_list(m).len()) == enc_entry_list(m),
    ensures
        dec_entry_list(s, i, m.len()) == Some((m, i + enc_entry_list(m).len())),
    decreases m.len(),
{
    if m.len() == 0 {
        assert(m =~= Seq::<(u64, Seq<u8>)>::empty());
    } else {
        let e0 = enc_entry(m[0]);
        let rest = enc_entry_list(m.drop_first());
        assert(enc_entry_list(m) == e0 + rest);
        lemma_extract(s, i, e0, rest);
        lemma_rt_entry(s, i, m[0]);
        lemma_rt_entry_list(s, i + e0.len(), m.drop_first());
        assert(seq![m[0]] + m.drop_first() =~= m);
    }
}

pub proof fn lemma_rt_action(s: Seq<u8>, i: int, a: ActionModel)
    requires
        0 <= i,
        action_bounded(a),
        i + enc_action(a).len() <= s.len(),
        s.subrange(i, i + enc_action(a).len()) == enc_action(a),
    ensures
        dec_action(s, i) == Some((a, i + enc_action(a).len())),
{
    lemma_auto_spec_u64_to_from_le_bytes();
    lemma_auto_spec_u32_to_from_le_bytes();
    let t = seq![action_tag(a)];
    match a {
        ActionModel::Create { fid, uid, gid, mode } => {
            let f1 = enc_u64(fid);
            let f2 = enc_u32(uid);
            let f3 = enc_u32(gid);
            let f4 = enc_u32(mode);
            lemma_extract(s, i, t + f1 + f2 + f3, f4);
            lemma_extract(s, i, t + f1 + f2, f3);
            lemma_extract(s, i, t + f1, f2);
            lemma_extract(s, i, t, f1);
            assert(s[i] == 0) by { assert(s.subrange(i, i + 1)[0] == s[i]); }
            lemma_rt_u64(s, i + 1, fid);
            lemma_rt_u32(s, i + 9, uid);
            lemma_rt_u32(s, i + 13, gid);
            lemma_rt_u32(s, i + 17, mode);
        },
        ActionModel::Write { fid, offset, data } => {
            let f1 = enc_u64(fid);
            let f2 = enc_u64(offset);
            let f3 = enc_bytes(data);
            lemma_extract(s, i, t + f1 + f2, f3);
            lemma_extract(s, i, t + f1, f2);
            lemma_extract(s, i, t, f1);
            assert(s[i] == 1) by { assert(s.subrange(i, i + 1)[0] == s[i]); }
            lemma_rt_u64(s, i + 1, fid);
            lemma_rt_u64(s, i + 9, offset);
            lemma_rt_bytes(s, i + 17, data);
        },
        ActionModel::Unlink { fid } => {
            let f1 = enc_u64(fid);
            lemma_extract(s, i, t, f1);
            assert(s[i] == 2) by { assert(s.subrange(i, i + 1)[0] == s[i]); }
            lemma_rt_u64(s, i + 1, fid);
        },
        ActionModel::Truncate { fid, size } => {
            let f1 = enc_u64(fid);
            let f2 = enc_u64(size);
            lemma_extract(s, i, t + f1, f2);
            lemma_extract(s, i, t, f1);
            assert(s[i] == 3) by { assert(s.subrange(i, i + 1)[0] == s[i]); }
            lemma_rt_u64(s, i + 1, fid);
            lemma_rt_u64(s, i + 9, size);
        },
        ActionModel::Rename { from_fid, to_fid } => {
            let f1 = enc_u64(from_fid);
            let f2 = enc_u64(to_fid);
            lemma_extract(s, i, t + f1, f2);
            lemma_extract(s, i, t, f1);
            assert(s[i] == 4) by { assert(s.subrange(i, i + 1)[0] == s[i]); }
            lemma_rt_u64(s, i + 1, from_fid);
            lemma_rt_u64(s, i + 9, to_fid);
        },
        ActionModel::Link { source_fid, new_link_fid } => {
            let f1 = enc_u64(source_fid);
            let f2 = enc_u64(new_link_fid);
            lemma_extract(s, i, t + f1, f2);
            lemma_extract(s, i, t, f1);
            assert(s[i] == 5) by { assert(s.subrange(i, i + 1)[0] == s[i]); }
            lemma_rt_u64(s, i + 1, source_fid);
            lemma_rt_u64(s, i + 9, new_link_fid);
        },
        ActionModel::Chown { fid, uid, gid } => {
            let f1 = enc_u64(fid);
            let f2 = enc_u32(uid);
            let f3 = enc_u32(gid);
            lemma_extract(s, i, t + f1 + f2, f3);
            lemma_extract(s, i, t + f1, f2);
            lemma_extract(s, i, t, f1);
            assert(s[i] == 6) by { assert(s.subrange(i, i + 1)[0] == s[i]); }
            lemma_rt_u64(s, i + 1, fid);
            lemma_rt_u32(s, i + 9, uid);
            lemma_rt_u32(s, i + 13, gid);
        },
        ActionModel::Chmod { fid, mode } => {
            let f1 = enc_u64(fid);
            let f2 = enc_u32(mode);
            lemma_extract(s, i, t + f1, f2);
            lemma_extract(s, i, t, f1);
            assert(s[i] == 7) by { assert(s.subrange(i, i + 1)[0] == s[i]); }
            lemma_rt_u64(s, i + 1, fid);
            lemma_rt_u32(s, i + 9, mode);
        },
        ActionModel::Mkdir { fid } => {
            let f1 = enc_u64(fid);
            lemma_extract(s, i, t, f1);
            assert(s[i] == 8) by { assert(s.subrange(i, i + 1)[0] == s[i]); }
            lemma_rt_u64(s, i + 1, fid);
        },
        ActionModel::Rmdir { fid } => {
            let f1 = enc_u64(fid);
            lemma_extract(s, i, t, f1);
            assert(s[i] == 9) by { assert(s.subrange(i, i + 1)[0] == s[i]); }
            lemma_rt_u64(s, i + 1, fid);
        },
        ActionModel::Symlink { link_fid, target_path, uid, gid } => {
            let f1 = enc_u64(link_fid);
            let f2 = enc_bytes(target_path);
            let f3 = enc_u32(uid);
            let f4 = enc_u32(gid);
            lemma_extract(s, i, t + f1 + f2 + f3, f4);
            lemma_extract(s, i, t + f1 + f2, f3);
            lemma_extract(s, i, t + f1, f2);
            lemma_extract(s, i, t, f1);
            assert(s[i] == 10) by { assert(s.subrange(i, i + 1)[0] == s[i]); }
            lemma_rt_u64(s, i + 1, link_fid);
            lemma_rt_bytes(s, i + 9, target_path);
            lemma_rt_u32(s, i + 9 + 8 + target_path.len(), uid);
            lemma_rt_u32(s, i + 9 + 8 + target_path.len() + 4, gid);
        },
    }
}

pub proof fn lemma_rt_action_list(s: Seq<u8>, i: int, m: Seq<ActionModel>)
    requires
        0 <= i,
        forall|k: int| 0 <= k < m.len() ==> action_bounded(#[trigger] m[k]),
        i + enc_action_list(m).len() <= s.len(),
        s.subrange(i, i + enc_action_list(m).len()) == enc_action_list(m),
    ensures
        dec_action_list(s, i, m.len()) == Some((m, i + enc_action_list(m).len())),
    decreases m.len(),
{
    if m.len() == 0 {
        assert(m =~= Seq::<ActionModel>::empty());
    } else {
        let a0 = enc_action(m[0]);
        let rest = enc_action_list(m.drop_first());
        assert(enc_action_list(m) == a0 + rest);
        lemma_extract(s, i, a0, rest);
        lemma_rt_action(s, i, m[0]);
        lemma_rt_action_list(s, i + a0.len(), m.drop_first());
        assert(seq![m[0]] + m.drop_first() =~= m);
    }
}

/// Round trip: decoding the encoding of any bounded log yields that log,
/// structurally, including action order and the FID table.
pub proof fn lemma_decode_encode(l: LogModel)
    requires
        log_bounded(l),
    ensures
        decode_log_spec(encode_log_spec(l)) == Some(l),
{
    lemma_auto_spec_u64_to_from_le_bytes();
    let s = encode_log_spec(l);
    let c1 = enc_u64(l.fid_map.len() as u64);
    let c2 = enc_entry_list(l.fid_map);
    let c3 = enc_u64(l.actions.len() as u64);
    let c4 = enc_action_list(l.actions);
    assert(s == c1 + c2 + c3 + c4);
    assert(s.subrange(0, s.len() as int) =~= s);
    lemma_extract(s, 0, c1 + c2 + c3, c4);
    lemma_extract(s, 0, c1 + c2, c3);
    lemma_extract(s, 0, c1, c2);
    lemma_rt_u64(s, 0, l.fid_map.len() as u64);
    lemma_rt_entry_list(s, 8, l.fid_map);
    lemma_rt_u64(s, 8 + c2.len() as int, l.actions.len() as u64);
    lemma_rt_action_list(s, 16 + c2.len() as int, l.actions);
}

} // verus!
