use vstd::prelude::*;

use crate::statediff::{
    actions_model, clone_bytes, entries_model, ActionModel, StateDiffAction, StateDiffLog,
};

verus! {

broadcast use vstd::seq_lib::group_seq_properties;
// ============================================================
// What pruning keeps, specified.
//
// Rule 1: of several Chmod (resp. Chown) actions on one FID only the last
// survives. Rule 2: a FID that is created (Create/Mkdir/Symlink) and later
// deleted (Unlink/Rmdir) is purged: every action mentioning it is dropped.
// Rule 3: the FID table keeps exactly the FIDs still referenced by a
// surviving action.
// ============================================================
/// Some action before position `j` creates FID `f`.
pub open spec fn created_before(s: Seq<ActionModel>, j: int, f: u64) -> bool {
    exists|i: int| 0 <= i < j && (#[trigger] s[i]).is_creation() && s[i].single_fid() == f
}

/// Within the prefix of length `end`, FID `f` is created and later deleted.
pub open spec fn purged_upto(s: Seq<ActionModel>, end: int, f: u64) -> bool {
    exists|j: int|
        0 <= j < end && (#[trigger] s[j]).is_deletion() && s[j].single_fid() == f && created_before(
            s,
            j,
            f,
        )
}

/// FID `f` is created and later deleted somewhere in `s`: it is ephemeral
/// and every action mentioning it is dropped.
pub open spec fn purged(s: Seq<ActionModel>, f: u64) -> bool {
    purged_upto(s, s.len() as int, f)
}

/// Action `a` mentions some purged FID.
pub open spec fn touches_purged(s: Seq<ActionModel>, a: ActionModel) -> bool {
    exists|k: int| 0 <= k < a.fids().len() && purged(s, #[trigger] a.fids()[k])
}

/// The Chmod (resp. Chown) at position `i` is superseded by a later one on
/// the same FID.
pub open spec fn dropped_by_collapse(s: Seq<ActionModel>, i: int) -> bool {
    ||| (s[i].is_chmod() && exists|j: int|
        i < j < s.len() && (#[trigger] s[j]).is_chmod() && s[j].single_fid() == s[i].single_fid())
    ||| (s[i].is_chown() && exists|j: int|
        i < j < s.len() && (#[trigger] s[j]).is_chown() && s[j].single_fid() == s[i].single_fid())
}

/// The action at position `i` survives pruning.
pub open spec fn kept(s: Seq<ActionModel>, i: int) -> bool {
    &&& !dropped_by_collapse(s, i)
    &&& !touches_purged(s, s[i])
}

/// The surviving actions of the prefix of length `n`, in order.
pub open spec fn prune_actions_upto(s: Seq<ActionModel>, n: int) -> Seq<ActionModel>
    decreases n,
{
    if n <= 0 {
        Seq::empty()
    } else {
        prune_actions_upto(s, n - 1) + if kept(s, n - 1) {
            seq![s[n - 1]]
        } else {
            Seq::empty()
        }
    }
}

/// The surviving actions of `s`.
pub open spec fn prune_actions(s: Seq<ActionModel>) -> Seq<ActionModel> {
    prune_actions_upto(s, s.len() as int)
}

/// Some surviving action of the prefix of length `end` mentions FID `f`.
pub open spec fn fid_used_upto(s: Seq<ActionModel>, end: int, f: u64) -> bool {
    exists|i: int| 0 <= i < end && kept(s, i) && (#[trigger] s[i]).fids().contains(f)
}

/// Some surviving action of `s` mentions FID `f`.
pub open spec fn fid_used(s: Seq<ActionModel>, f: u64) -> bool {
    fid_used_upto(s, s.len() as int, f)
}

/// The FID-table entries retained by pruning: those whose FID a surviving
/// action still references.
pub open spec fn prune_map_upto(s: Seq<ActionModel>, m: Seq<(u64, Seq<u8>)>, n: int) -> Seq<
    (u64, Seq<u8>),
>
    decreases n,
{
    if n <= 0 {
        Seq::empty()
    } else {
        prune_map_upto(s, m, n - 1) + if fid_used(s, m[n - 1].0) {
            seq![m[n - 1]]
        } else {
            Seq::empty()
        }
    }
}

pub open spec fn prune_map(s: Seq<ActionModel>, m: Seq<(u64, Seq<u8>)>) -> Seq<(u64, Seq<u8>)> {
    prune_map_upto(s, m, m.len() as int)
}

// ============================================================
// Executable pruner.
// ============================================================
/// Pushing onto a FID vector adds exactly one member.
proof fn lemma_push_contains_iff(s: Seq<u64>, x: u64, y: u64)
    ensures
        s.push(x).contains(y) <==> (s.contains(y) || x == y),
{
    if s.contains(y) {
        let w = choose|w: int| 0 <= w < s.len() && s[w] == y;
        assert(s.push(x)[w] == y);
    }
    assert(s.push(x)[s.len() as int] == x);
    if s.push(x).contains(y) {
        let w = choose|w: int| 0 <= w < s.push(x).len() && s.push(x)[w] == y;
        if w < s.len() {
            assert(s[w] == y);
        }
    }
}

/// Membership in a plain FID vector.
fn u64_contains(v: &Vec<u64>, x: u64) -> (r: bool)
    ensures
        r <==> v@.contains(x),
{
    let n = v.len();
    let mut i: usize = 0;
    while i < n
        invariant
            n == v@.len(),
            0 <= i <= n,
            forall|k: int| 0 <= k < i ==> v@[k] != x,
        decreases n - i,
    {
        if v[i] == x {
            return true;
        }
        i += 1;
    }
    false
}

/// The FID created by this action, if it is a creation.
fn creation_fid(a: &StateDiffAction) -> (r: Option<u64>)
    ensures
        match r {
            Some(f) => a.model().is_creation() && a.model().single_fid() == f,
            None => !a.model().is_creation(),
        },
{
    match a {
        StateDiffAction::Create { fid, .. } => Some(*fid),
        StateDiffAction::Mkdir { fid } => Some(*fid),
        StateDiffAction::Symlink { link_fid, .. } => Some(*link_fid),
        _ => None,
    }
}

/// The FID deleted by this action, if it is a deletion.
fn deletion_fid(a: &StateDiffAction) -> (r: Option<u64>)
    ensures
        match r {
            Some(f) => a.model().is_deletion() && a.model().single_fid() == f,
            None => !a.model().is_deletion(),
        },
{
    match a {
        StateDiffAction::Unlink { fid } => Some(*fid),
        StateDiffAction::Rmdir { fid } => Some(*fid),
        _ => None,
    }
}

/// The set of purged FIDs of an action list: created and later deleted.
fn compute_purge(actions: &Vec<StateDiffAction>) -> (r: Vec<u64>)
    ensures
        forall|f: u64| r@.contains(f) <==> purged(actions_model(actions@), f),
{
    let ghost sm = actions_model(actions@);
    let n = actions.len();
    let mut seen: Vec<u64> = Vec::new();
    let mut purge: Vec<u64> = Vec::new();
    let mut i: usize = 0;
    while i < n
        invariant
            n == actions@.len(),
            sm == actions_model(actions@),
            sm.len() == n,
            0 <= i <= n,
            forall|f: u64| seen@.contains(f) <==> created_before(sm, i as int, f),
            forall|f: u64| purge@.contains(f) <==> purged_upto(sm, i as int, f),
        decreases n - i,
    {
        let ghost seen0 = seen@;
        let ghost purge0 = purge@;
        assert(sm[i as int] == actions@[i as int].model());
        if let Some(f) = creation_fid(&actions[i]) {
            if !u64_contains(&seen, f) {
                seen.push(f);
            }
            proof {
                assert forall|g: u64| seen@.contains(g) <==> created_before(
                    sm,
                    i + 1,
                    g,
                ) by {
                    if seen@.contains(g) {
                        if seen0.contains(g) {
                            let w = choose|w: int|
                                0 <= w < i && (#[trigger] sm[w]).is_creation() && sm[w].single_fid()
                                    == g;
                            assert(sm[w].is_creation() && sm[w].single_fid() == g);
                        } else {
                            assert(g == f);
                            assert(sm[i as int].is_creation() && sm[i as int].single_fid() == g);
                        }
                    }
                    if created_before(sm, i + 1, g) {
                        let w = choose|w: int|
                            0 <= w < i + 1 && (#[trigger] sm[w]).is_creation() && sm[w].single_fid()
                                == g;
                        if w < i {
                            assert(created_before(sm, i as int, g));
                            assert(seen0.contains(g));
                            if seen@ != seen0 {
                                assert(seen@ == seen0.push(f));
                                assert(seen@.contains(g));
                            }
                        } else {
                            assert(g == f);
                            assert(seen@.contains(f));
                        }
                    }
                }
                assert forall|g: u64| purge@.contains(g) <==> purged_upto(sm, i + 1, g) by {
                    if purged_upto(sm, i + 1, g) {
                        let w = choose|w: int|
                            0 <= w < i + 1 && (#[trigger] sm[w]).is_deletion() && sm[w].single_fid()
                                == g && created_before(sm, w, g);
                        assert(w < i) by {
                            assert(!sm[i as int].is_deletion());
                        }
                        assert(purged_upto(sm, i as int, g));
                    }
                }
            }
        } else if let Some(f) = deletion_fid(&actions[i]) {
            if u64_contains(&seen, f) {
                if !u64_contains(&purge, f) {
                    purge.push(f);
                }
            }
            proof {
                assert(seen@ == seen0);
                assert forall|g: u64| seen@.contains(g) <==> created_before(
                    sm,
                    i + 1,
                    g,
                ) by {
                    if created_before(sm, i + 1, g) {
                        let w = choose|w: int|
                            0 <= w < i + 1 && (#[trigger] sm[w]).is_creation() && sm[w].single_fid()
                                == g;
                        assert(w < i) by {
                            assert(!sm[i as int].is_creation());
                        }
                        assert(created_before(sm, i as int, g));
                    }
                }
                assert forall|g: u64| purge@.contains(g) <==> purged_upto(sm, i + 1, g) by {
                    if purge@.contains(g) {
                        if purge0.contains(g) {
                            let w = choose|w: int|
                                0 <= w < i && (#[trigger] sm[w]).is_deletion() && sm[w].single_fid()
                                    == g && created_before(sm, w, g);
                            assert(sm[w].is_deletion() && sm[w].single_fid() == g && created_before(
                                sm,
                                w,
                                g,
                            ));
                        } else {
                            assert(g == f);
                            assert(seen0.contains(f));
                            assert(created_before(sm, i as int, f));
                            assert(sm[i as int].is_deletion() && sm[i as int].single_fid() == g);
                        }
                    }
                    if purged_upto(sm, i + 1, g) && !purge@.contains(g) {
                        let w = choose|w: int|
                            0 <= w < i + 1 && (#[trigger] sm[w]).is_deletion() && sm[w].single_fid()
                                == g && created_before(sm, w, g);
                        if w < i {
                            assert(purged_upto(sm, i as int, g));
                            assert(purge0.contains(g));
                            assert(purge@.contains(g));
                        } else {
                            assert(g == f);
                            assert(created_before(sm, i as int, f));
                            assert(seen0.contains(f));
                            assert(purge@.contains(f));
                        }
                        assert(false);
                    }
                }
            }
        } else {
            proof {
                assert forall|g: u64| seen@.contains(g) <==> created_before(
                    sm,
                    i + 1,
                    g,
                ) by {
                    if created_before(sm, i + 1, g) {
                        let w = choose|w: int|
                            0 <= w < i + 1 && (#[trigger] sm[w]).is_creation() && sm[w].single_fid()
                                == g;
                        assert(w < i) by {
                            assert(!sm[i as int].is_creation());
                        }
                        assert(created_before(sm, i as int, g));
                    }
                }
                assert forall|g: u64| purge@.contains(g) <==> purged_upto(sm, i + 1, g) by {
                    if purged_upto(sm, i + 1, g) {
                        let w = choose|w: int|
                            0 <= w < i + 1 && (#[trigger] sm[w]).is_deletion() && sm[w].single_fid()
                                == g && created_before(sm, w, g);
                        assert(w < i) by {
                            assert(!sm[i as int].is_deletion());
                        }
                        assert(purged_upto(sm, i as int, g));
                    }
                }
            }
        }
        i += 1;
    }
    purge
}

/// A later Chmod on the same FID follows position `i`.
fn has_later_chmod(actions: &Vec<StateDiffAction>, i: usize, f: u64) -> (r: bool)
    requires
        i < actions@.len(),
    ensures
        r <==> exists|j: int|
            i < j < actions_model(actions@).len() && (#[trigger] actions_model(
                actions@,
            )[j]).is_chmod() && actions_model(actions@)[j].single_fid() == f,
{
    let ghost sm = actions_model(actions@);
    let n = actions.len();
    let mut j: usize = i + 1;
    while j < n
        invariant
            n == actions@.len(),
            sm == actions_model(actions@),
            sm.len() == n,
            i < j <= n,
            forall|k: int| i < k < j ==> !((#[trigger] sm[k]).is_chmod() && sm[k].single_fid() == f),
        decreases n - j,
    {
        assert(sm[j as int] == actions@[j as int].model());
        match &actions[j] {
            StateDiffAction::Chmod { fid, .. } => {
                if *fid == f {
                    return true;
                }
            },
            _ => {},
        }
        j += 1;
    }
    false
}

/// A later Chown on the same FID follows position `i`.
fn has_later_chown(actions: &Vec<StateDiffAction>, i: usize, f: u64) -> (r: bool)
    requires
        i < actions@.len(),
    ensures
        r <==> exists|j: int|
            i < j < actions_model(actions@).len() && (#[trigger] actions_model(
                actions@,
            )[j]).is_chown() && actions_model(actions@)[j].single_fid() == f,
{
    let ghost sm = actions_model(actions@);
    let n = actions.len();
    let mut j: usize = i + 1;
    while j < n
        invariant
            n == actions@.len(),
            sm == actions_model(actions@),
            sm.len() == n,
            i < j <= n,
            forall|k: int| i < k < j ==> !((#[trigger] sm[k]).is_chown() && sm[k].single_fid() == f),
        decreases n - j,
    {
        assert(sm[j as int] == actions@[j as int].model());
        match &actions[j] {
            StateDiffAction::Chown { fid, .. } => {
                if *fid == f {
                    return true;
                }
            },
            _ => {},
        }
        j += 1;
    }
    false
}

/// A structural copy of an action.
pub fn clone_action(a: &StateDiffAction) -> (r: StateDiffAction)
    ensures
        r.model() == a.model(),
{
    match a {
        StateDiffAction::Create { fid, uid, gid, mode } => StateDiffAction::Create {
            fid: *fid,
            uid: *uid,
            gid: *gid,
            mode: *mode,
        },
        StateDiffAction::Write { fid, offset, data } => StateDiffAction::Write {
            fid: *fid,
            offset: *offset,
            data: clone_bytes(data),
        },
        StateDiffAction::Unlink { fid } => StateDiffAction::Unlink { fid: *fid },
        StateDiffAction::Truncate { fid, size } => StateDiffAction::Truncate {
            fid: *fid,
            size: *size,
        },
        StateDiffAction::Rename { from_fid, to_fid } => StateDiffAction::Rename {
            from_fid: *from_fid,
            to_fid: *to_fid,
        },
        StateDiffAction::Link { source_fid, new_link_fid } => StateDiffAction::Link {
            source_fid: *source_fid,
            new_link_fid: *new_link_fid,
        },
        StateDiffAction::Chown { fid, uid, gid } => StateDiffAction::Chown {
            fid: *fid,
            uid: *uid,
            gid: *gid,
        },
        StateDiffAction::Chmod { fid, mode } => StateDiffAction::Chmod {
            fid: *fid,
            mode: *mode,
        },
        StateDiffAction::Mkdir { fid } => StateDiffAction::Mkdir { fid: *fid },
        StateDiffAction::Rmdir { fid } => StateDiffAction::Rmdir { fid: *fid },
        StateDiffAction::Symlink { link_fid, target_path, uid, gid } => StateDiffAction::Symlink {
            link_fid: *link_fid,
            target_path: clone_bytes(target_path),
            uid: *uid,
            gid: *gid,
        },
    }
}

/// Whether the action at position `i` survives pruning, given the purge
/// set.
fn action_kept(actions: &Vec<StateDiffAction>, i: usize, purge: &Vec<u64>) -> (r: bool)
    requires
        i < actions@.len(),
        forall|f: u64| purge@.contains(f) <==> purged(actions_model(actions@), f),
    ensures
        r <==> kept(actions_model(actions@), i as int),
{
    let ghost sm = actions_model(actions@);
    assert(sm[i as int] == actions@[i as int].model());
    let dropc = match &actions[i] {
        StateDiffAction::Chmod { fid, .. } => has_later_chmod(actions, i, *fid),
        StateDiffAction::Chown { fid, .. } => has_later_chown(actions, i, *fid),
        _ => false,
    };
    assert(dropc <==> dropped_by_collapse(sm, i as int));
    if dropc {
        return false;
    }
    let fv = crate::statediff::action_fids(&actions[i]);
    assert(fv@ == sm[i as int].fids());
    let m = fv.len();
    let mut k: usize = 0;
    while k < m
        invariant
            sm == actions_model(actions@),
            i < actions@.len(),
            m == fv@.len(),
            fv@ == sm.index(i as int).fids(),
            forall|f: u64| purge@.contains(f) <==> purged(sm, f),
            0 <= k <= m,
            0 <= i < sm.len(),
            forall|q: int| 0 <= q < k ==> !purged(sm, #[trigger] fv@[q]),
        decreases m - k,
    {
        if u64_contains(purge, fv[k]) {
            proof {
                assert(purged(sm, sm[i as int].fids()[k as int]));
                assert(touches_purged(sm, sm[i as int]));
            }
            return false;
        }
        k += 1;
    }
    proof {
        if touches_purged(sm, sm[i as int]) {
            let q = choose|q: int|
                0 <= q < sm[i as int].fids().len() && purged(sm, #[trigger] sm[i as int].fids()[q]);
            assert(!purged(sm, fv@[q]));
            assert(false);
        }
    }
    true
}

/// The FIDs referenced by the surviving actions.
fn collect_used(actions: &Vec<StateDiffAction>, purge: &Vec<u64>) -> (r: Vec<u64>)
    requires
        forall|f: u64| purge@.contains(f) <==> purged(actions_model(actions@), f),
    ensures
        forall|f: u64| r@.contains(f) <==> fid_used(actions_model(actions@), f),
{
    let ghost sm = actions_model(actions@);
    let n = actions.len();
    let mut used: Vec<u64> = Vec::new();
    let mut i: usize = 0;
    while i < n
        invariant
            n == actions@.len(),
            sm == actions_model(actions@),
            sm.len() == n,
            forall|f: u64| purge@.contains(f) <==> purged(sm, f),
            0 <= i <= n,
            forall|f: u64| used@.contains(f) <==> fid_used_upto(sm, i as int, f),
        decreases n - i,
    {
        let keep = action_kept(actions, i, purge);
        let ghost used0 = used@;
        if keep {
            assert(sm[i as int] == actions@[i as int].model());
            let fv = crate::statediff::action_fids(&actions[i]);
            assert(fv@ == sm[i as int].fids());
            let m = fv.len();
            let mut k: usize = 0;
            while k < m
                invariant
                    m == fv@.len(),
                    fv@ == sm.index(i as int).fids(),
                    0 <= i < sm.len(),
                    kept(sm, i as int),
                    0 <= k <= m,
                    forall|g: u64| #![trigger used@.contains(g)]
                        used@.contains(g) <==> (used0.contains(g) || exists|q: int|
                            0 <= q < k && #[trigger] fv@[q] == g),
                decreases m - k,
            {
                let f = fv[k];
                let ghost usedb = used@;
                if !u64_contains(&used, f) {
                    used.push(f);
                }
                proof {
                    assert(fv@[k as int] == f);
                    assert forall|g: u64| #![trigger used@.contains(g)]
                        used@.contains(g) <==> (used0.contains(g) || exists|q: int|
                            0 <= q < k + 1 && #[trigger] fv@[q] == g) by {
                        let ghost b0 = usedb.contains(g);
                        let ghost b1 = used0.contains(g);
                        if used@ != usedb {
                            lemma_push_contains_iff(usedb, f, g);
                        }
                        if used@.contains(g) {
                            assert(usedb.contains(g) || g == f);
                        }
                        if exists|q: int| 0 <= q < k + 1 && #[trigger] fv@[q] == g {
                            let q = choose|q: int| 0 <= q < k + 1 && #[trigger] fv@[q] == g;
                            if q < k {
                                assert(usedb.contains(g));
                            } else {
                                assert(g == f);
                            }
                            assert(used@.contains(g));
                        }
                        if used0.contains(g) {
                            assert(usedb.contains(g));
                            assert(used@.contains(g));
                        }
                    }
                }
                k += 1;
            }
            proof {
                assert forall|g: u64| used@.contains(g) <==> fid_used_upto(sm, i + 1, g) by {
                    let ghost b0 = used0.contains(g);
                    assert(used@.contains(g) <==> (used0.contains(g) || exists|q: int|
                        0 <= q < m && #[trigger] fv@[q] == g));
                    if used@.contains(g) {
                        if used0.contains(g) {
                            let w = choose|w: int|
                                0 <= w < i && kept(sm, w) && (#[trigger] sm[w]).fids().contains(g);
                            assert(kept(sm, w) && sm[w].fids().contains(g));
                        } else {
                            let q = choose|q: int| 0 <= q < m && #[trigger] fv@[q] == g;
                            assert(sm[i as int].fids()[q] == g);
                            assert(sm[i as int].fids().contains(g));
                        }
                    }
                    if fid_used_upto(sm, i + 1, g) {
                        let w = choose|w: int|
                            0 <= w < i + 1 && kept(sm, w) && (#[trigger] sm[w]).fids().contains(g);
                        if w < i {
                            assert(fid_used_upto(sm, i as int, g));
                            assert(used0.contains(g));
                            assert(used@.contains(g));
                        } else {
                            assert(w == i);
                            let q = choose|q: int|
                                0 <= q < sm[i as int].fids().len() && sm[i as int].fids()[q] == g;
                            assert(fv@[q] == g);
                            assert(used@.contains(g));
                        }
                    }
                }
            }
        } else {
            proof {
                assert forall|g: u64| used@.contains(g) <==> fid_used_upto(sm, i + 1, g) by {
                    if fid_used_upto(sm, i + 1, g) {
                        let w = choose|w: int|
                            0 <= w < i + 1 && kept(sm, w) && (#[trigger] sm[w]).fids().contains(g);
                        assert(w != i);
                        assert(fid_used_upto(sm, i as int, g));
                    }
                }
            }
        }
        i += 1;
    }
    used
}

/// Rewrite the log in place to an equivalent shorter form: collapse
/// superseded Chmod/Chown actions, drop every action of an ephemeral FID
/// (created then deleted), and retain in the FID table only FIDs a
/// surviving action still references. Writes and Truncates of surviving
/// FIDs are never dropped.
pub fn prune_log(log: &mut StateDiffLog)
    ensures
        actions_model(final(log).actions@) == prune_actions(actions_model(old(log).actions@)),
        entries_model(final(log).fid_map@) == prune_map(
            actions_model(old(log).actions@),
            entries_model(old(log).fid_map@),
        ),
{
    let ghost sm = actions_model(log.actions@);
    let ghost em = entries_model(log.fid_map@);
    let purge = compute_purge(&log.actions);
    let used = collect_used(&log.actions, &purge);
    let n = log.actions.len();
    let mut new_actions: Vec<StateDiffAction> = Vec::new();
    let mut i: usize = 0;
    while i < n
        invariant
            *log == *old(log),
            n == log.actions@.len(),
            sm == actions_model(log.actions@),
            sm.len() == n,
            forall|f: u64| purge@.contains(f) <==> purged(sm, f),
            0 <= i <= n,
            actions_model(new_actions@) == prune_actions_upto(sm, i as int),
        decreases n - i,
    {
        let ghost new0 = actions_model(new_actions@);
        if action_kept(&log.actions, i, &purge) {
            new_actions.push(clone_action(&log.actions[i]));
            proof {
                assert(sm[i as int] == log.actions@[i as int].model());
                assert(actions_model(new_actions@) =~= new0.push(sm[i as int]));
                assert(prune_actions_upto(sm, i + 1) == prune_actions_upto(sm, i as int) + seq![
                    sm[i as int],
                ]);
                assert(actions_model(new_actions@) =~= prune_actions_upto(sm, i + 1));
            }
        } else {
            proof {
                assert(prune_actions_upto(sm, i + 1) =~= prune_actions_upto(sm, i as int));
            }
        }
        i += 1;
    }
    let mn = log.fid_map.len();
    let mut new_map: Vec<(u64, Vec<u8>)> = Vec::new();
    let mut t: usize = 0;
    while t < mn
        invariant
            *log == *old(log),
            mn == log.fid_map@.len(),
            em == entries_model(log.fid_map@),
            em.len() == mn,
            sm == actions_model(log.actions@),
            forall|f: u64| used@.contains(f) <==> fid_used(sm, f),
            0 <= t <= mn,
            entries_model(new_map@) == prune_map_upto(sm, em, t as int),
        decreases mn - t,
    {
        assert(em[t as int] == (log.fid_map@[t as int].0, log.fid_map@[t as int].1@));
        let ghost nm0 = entries_model(new_map@);
        let f = log.fid_map[t].0;
        if u64_contains(&used, f) {
            let p = clone_bytes(&log.fid_map[t].1);
            new_map.push((f, p));
            proof {
                assert(entries_model(new_map@) =~= nm0.push(em[t as int]));
                assert(entries_model(new_map@) =~= prune_map_upto(sm, em, t + 1));
            }
        } else {
            proof {
                assert(prune_map_upto(sm, em, t + 1) =~= prune_map_upto(sm, em, t as int));
            }
        }
        t += 1;
    }
    log.actions = new_actions;
    log.fid_map = new_map;
}

// ============================================================
// Laws of pruning.
// ============================================================
/// The positions of the surviving actions of the prefix of length `n`, in
/// order.
pub open spec fn kept_indices(s: Seq<ActionModel>, n: int) -> Seq<int>
    decreases n,
{
    if n <= 0 {
        Seq::empty()
    } else {
        kept_indices(s, n - 1) + if kept(s, n - 1) {
            seq![n - 1]
        } else {
            Seq::empty()
        }
    }
}

/// The surviving actions are the actions at the kept positions, in their
/// original order; every kept position occurs.
pub proof fn lemma_kept_indices(s: Seq<ActionModel>, n: int)
    requires
        0 <= n <= s.len(),
    ensures
        kept_indices(s, n).len() == prune_actions_upto(s, n).len(),
        forall|x: int|
            0 <= x < kept_indices(s, n).len() ==> 0 <= #[trigger] kept_indices(s, n)[x] < n
                && kept(s, kept_indices(s, n)[x]) && prune_actions_upto(s, n)[x] == s[kept_indices(
                s,
                n,
            )[x]],
        forall|x: int, y: int|
            0 <= x < y < kept_indices(s, n).len() ==> kept_indices(s, n)[x] < kept_indices(
                s,
                n,
            )[y],
        forall|i: int| 0 <= i < n && kept(s, i) ==> kept_indices(s, n).contains(i),
    decreases n,
{
    if n > 0 {
        lemma_kept_indices(s, n - 1);
        let prev = kept_indices(s, n - 1);
        let cur = kept_indices(s, n);
        if kept(s, n - 1) {
            assert(cur == prev + seq![n - 1]);
            assert(cur[cur.len() - 1] == n - 1);
            assert forall|i: int| 0 <= i < n && kept(s, i) implies cur.contains(i) by {
                if i < n - 1 {
                    let w = choose|w: int| 0 <= w < prev.len() && prev[w] == i;
                    assert(cur[w] == i);
                } else {
                    assert(cur[cur.len() - 1] == i);
                }
            }
        } else {
            assert(cur =~= prev);
            assert(prune_actions_upto(s, n) =~= prune_actions_upto(s, n - 1));
            assert forall|i: int| 0 <= i < n && kept(s, i) implies cur.contains(i) by {
                let w = choose|w: int| 0 <= w < prev.len() && prev[w] == i;
                assert(cur[w] == i);
            }
        }
    }
}

/// Retention in the FID table, by induction over its entries: the retained
/// entries are a subtable of the original (distinct keys and paths
/// preserved), each retained FID is referenced by a surviving action, and
/// every original entry whose FID a surviving action references is
/// retained.
pub proof fn lemma_prune_map_props(s: Seq<ActionModel>, m: Seq<(u64, Seq<u8>)>, n: int)
    requires
        0 <= n <= m.len(),
        forall|i: int, j: int| 0 <= i < j < m.len() ==> m[i].0 != m[j].0,
        forall|i: int, j: int| 0 <= i < j < m.len() ==> m[i].1 != m[j].1,
    ensures
        forall|k: int|
            0 <= k < prune_map_upto(s, m, n).len() ==> fid_used(
                s,
                (#[trigger] prune_map_upto(s, m, n)[k]).0,
            ),
        forall|k: int|
            0 <= k < prune_map_upto(s, m, n).len() ==> exists|t: int|
                0 <= t < n && #[trigger] prune_map_upto(s, m, n)[k] == m[t],
        forall|k1: int, k2: int|
            0 <= k1 < k2 < prune_map_upto(s, m, n).len() ==> prune_map_upto(s, m, n)[k1].0
                != prune_map_upto(s, m, n)[k2].0,
        forall|k1: int, k2: int|
            0 <= k1 < k2 < prune_map_upto(s, m, n).len() ==> prune_map_upto(s, m, n)[k1].1
                != prune_map_upto(s, m, n)[k2].1,
        forall|t: int|
            0 <= t < n && fid_used(s, (#[trigger] m[t]).0) ==> prune_map_upto(s, m, n).contains(
                m[t],
            ),
    decreases n,
{
    if n > 0 {
        lemma_prune_map_props(s, m, n - 1);
        let prev = prune_map_upto(s, m, n - 1);
        let cur = prune_map_upto(s, m, n);
        if fid_used(s, m[n - 1].0) {
            assert(cur == prev + seq![m[n - 1]]);
            assert(cur[cur.len() - 1] == m[n - 1]);
            assert forall|k1: int, k2: int| 0 <= k1 < k2 < cur.len() implies cur[k1].0
                != cur[k2].0 by {
                if k2 == cur.len() - 1 {
                    let t1 = choose|t: int| 0 <= t < n - 1 && prev[k1] == m[t];
                    assert(m[t1].0 != m[n - 1].0);
                }
            }
            assert forall|k1: int, k2: int| 0 <= k1 < k2 < cur.len() implies cur[k1].1
                != cur[k2].1 by {
                if k2 == cur.len() - 1 {
                    let t1 = choose|t: int| 0 <= t < n - 1 && prev[k1] == m[t];
                    assert(m[t1].1 != m[n - 1].1);
                }
            }
            assert forall|t: int|
                0 <= t < n && fid_used(s, (#[trigger] m[t]).0) implies cur.contains(m[t]) by {
                if t < n - 1 {
                    let w = choose|w: int| 0 <= w < prev.len() && prev[w] == m[t];
                    assert(cur[w] == m[t]);
                } else {
                    assert(cur[cur.len() - 1] == m[t]);
                }
            }
        } else {
            assert(cur =~= prev);
            assert forall|t: int|
                0 <= t < n && fid_used(s, (#[trigger] m[t]).0) implies cur.contains(m[t]) by {
                assert(t != n - 1);
                let w = choose|w: int| 0 <= w < prev.len() && prev[w] == m[t];
                assert(cur[w] == m[t]);
            }
        }
    }
}

/// After pruning a well-formed log, the log is still well-formed, every FID
/// left in the FID table is referenced by at least one surviving action,
/// and every surviving action's FIDs are still resolved by the table.
#[verifier::spinoff_prover]
#[verifier::rlimit(100)]
pub proof fn lemma_prune_log_wf(l0: StateDiffLog, l1: StateDiffLog)
    requires
        l0.wf(),
        actions_model(l1.actions@) == prune_actions(actions_model(l0.actions@)),
        entries_model(l1.fid_map@) == prune_map(
            actions_model(l0.actions@),
            entries_model(l0.fid_map@),
        ),
    ensures
        l1.wf(),
        forall|k: int|
            0 <= k < l1.fid_map@.len() ==> fid_used(
                actions_model(l0.actions@),
                (#[trigger] l1.fid_map@[k]).0,
            ),
{
    let s = actions_model(l0.actions@);
    let m = entries_model(l0.fid_map@);
    let p = prune_actions(s);
    let pm = prune_map(s, m);
    assert(m.len() == l0.fid_map@.len());
    assert forall|i: int, j: int| 0 <= i < j < m.len() implies m[i].0 != m[j].0 by {
        assert(m[i] == (l0.fid_map@[i].0, l0.fid_map@[i].1@));
        assert(m[j] == (l0.fid_map@[j].0, l0.fid_map@[j].1@));
    }
    assert forall|i: int, j: int| 0 <= i < j < m.len() implies m[i].1 != m[j].1 by {
        assert(m[i] == (l0.fid_map@[i].0, l0.fid_map@[i].1@));
        assert(m[j] == (l0.fid_map@[j].0, l0.fid_map@[j].1@));
    }
    lemma_prune_map_props(s, m, m.len() as int);
    lemma_kept_indices(s, s.len() as int);
    // The table is still a table: distinct keys, distinct paths.
    assert(entries_model(l1.fid_map@).len() == l1.fid_map@.len());
    assert forall|i: int, j: int| 0 <= i < j < l1.fid_map@.len() implies l1.fid_map@[i].0
        != l1.fid_map@[j].0 by {
        assert(pm[i] == (l1.fid_map@[i].0, l1.fid_map@[i].1@));
        assert(pm[j] == (l1.fid_map@[j].0, l1.fid_map@[j].1@));
    }
    assert forall|i: int, j: int| 0 <= i < j < l1.fid_map@.len() implies l1.fid_map@[i].1@
        != l1.fid_map@[j].1@ by {
        assert(pm[i] == (l1.fid_map@[i].0, l1.fid_map@[i].1@));
        assert(pm[j] == (l1.fid_map@[j].0, l1.fid_map@[j].1@));
    }
    // Every retained FID is used by a surviving action, which is present in
    // the pruned action list.
    assert forall|k: int| 0 <= k < l1.fid_map@.len() implies fid_used(
        s,
        (#[trigger] l1.fid_map@[k]).0,
    ) by {
        assert(pm[k] == (l1.fid_map@[k].0, l1.fid_map@[k].1@));
        assert(fid_used(s, pm[k].0));
    }
    // Every surviving action's FIDs are still in the table.
    assert forall|x: int, q: int|
        0 <= x < l1.actions@.len() && 0 <= q < (#[trigger] l1.actions@[x].fids()).len()
            implies crate::statediff::table_has_fid(
        l1.fid_map@,
        #[trigger] l1.actions@[x].fids()[q],
    ) by {
        assert(actions_model(l1.actions@)[x] == l1.actions@[x].model());
        assert(p[x] == l1.actions@[x].model());
        let i = kept_indices(s, s.len() as int)[x];
        assert(p[x] == s[i] && kept(s, i));
        let f = l1.actions@[x].fids()[q];
        assert(s[i].fids()[q] == f);
        assert(s[i].fids().contains(f));
        assert(fid_used(s, f));
        assert(s[i] == l0.actions@[i].model());
        assert(l0.actions@[i].fids() == s[i].fids());
        assert(crate::statediff::table_has_fid(l0.fid_map@, f));
        let t = choose|t: int| 0 <= t < l0.fid_map@.len() && l0.fid_map@[t].0 == f;
        assert(m[t] == (l0.fid_map@[t].0, l0.fid_map@[t].1@));
        assert(m[t].0 == f);
        assert(prune_map_upto(s, m, m.len() as int).contains(m[t]));
        let w = choose|w: int| 0 <= w < pm.len() && pm[w] == m[t];
        assert(pm[w] == (l1.fid_map@[w].0, l1.fid_map@[w].1@));
        assert(l1.fid_map@[w].0 == f);
    }
}


/// Each FID retained in the pruned table is referenced by one of the
/// pruned actions: the other half of the table-compaction law.
#[verifier::spinoff_prover]
#[verifier::rlimit(100)]
pub proof fn lemma_prune_log_referenced(l0: StateDiffLog, l1: StateDiffLog, k: int)
    requires
        l0.wf(),
        actions_model(l1.actions@) == prune_actions(actions_model(l0.actions@)),
        entries_model(l1.fid_map@) == prune_map(
            actions_model(l0.actions@),
            entries_model(l0.fid_map@),
        ),
        0 <= k < l1.fid_map@.len(),
    ensures
        exists|x: int, q: int|
            #![trigger l1.actions@[x].fids()[q]]
            0 <= x < l1.actions@.len() && 0 <= q < l1.actions@[x].fids().len()
                && l1.actions@[x].fids()[q] == l1.fid_map@[k].0,
{
    let s = actions_model(l0.actions@);
    let m = entries_model(l0.fid_map@);
    let p = prune_actions(s);
    let pm = prune_map(s, m);
    assert(m.len() == l0.fid_map@.len());
    assert forall|i: int, j: int| 0 <= i < j < m.len() implies m[i].0 != m[j].0 by {
        assert(m[i] == (l0.fid_map@[i].0, l0.fid_map@[i].1@));
        assert(m[j] == (l0.fid_map@[j].0, l0.fid_map@[j].1@));
    }
    assert forall|i: int, j: int| 0 <= i < j < m.len() implies m[i].1 != m[j].1 by {
        assert(m[i] == (l0.fid_map@[i].0, l0.fid_map@[i].1@));
        assert(m[j] == (l0.fid_map@[j].0, l0.fid_map@[j].1@));
    }
    lemma_prune_map_props(s, m, m.len() as int);
    lemma_kept_indices(s, s.len() as int);
    assert(entries_model(l1.fid_map@).len() == l1.fid_map@.len());
    assert(pm[k] == (l1.fid_map@[k].0, l1.fid_map@[k].1@));
    let f = pm[k].0;
    assert(fid_used(s, f));
    let i = choose|i: int| 0 <= i < s.len() && kept(s, i) && (#[trigger] s[i]).fids().contains(f);
    assert(kept_indices(s, s.len() as int).contains(i));
    let x = choose|x: int|
        0 <= x < kept_indices(s, s.len() as int).len() && kept_indices(s, s.len() as int)[x] == i;
    assert(p[x] == s[i]);
    assert(actions_model(l1.actions@).len() == l1.actions@.len());
    assert(0 <= x < l1.actions@.len());
    assert(actions_model(l1.actions@)[x] == l1.actions@[x].model());
    assert(l1.actions@[x].fids() == s[i].fids());
    let q = choose|q: int| 0 <= q < s[i].fids().len() && s[i].fids()[q] == f;
    assert(0 <= q < l1.actions@[x].fids().len());
    assert(l1.actions@[x].fids()[q] == l1.fid_map@[k].0);
}

/// Pruning a list in which every action survives changes nothing.
proof fn lemma_prune_noop(p: Seq<ActionModel>, n: int)
    requires
        0 <= n <= p.len(),
        forall|x: int| 0 <= x < p.len() ==> kept(p, x),
    ensures
        prune_actions_upto(p, n) == p.subrange(0, n),
    decreases n,
{
    if n > 0 {
        lemma_prune_noop(p, n - 1);
        assert(prune_actions_upto(p, n) =~= p.subrange(0, n));
    } else {
        assert(prune_actions_upto(p, n) =~= p.subrange(0, n));
    }
}

/// Filtering a table in which every entry's FID stays used changes nothing.
proof fn lemma_prune_map_noop(p: Seq<ActionModel>, pm: Seq<(u64, Seq<u8>)>, n: int)
    requires
        0 <= n <= pm.len(),
        forall|k: int| 0 <= k < pm.len() ==> fid_used(p, (#[trigger] pm[k]).0),
    ensures
        prune_map_upto(p, pm, n) == pm.subrange(0, n),
    decreases n,
{
    if n > 0 {
        lemma_prune_map_noop(p, pm, n - 1);
        assert(prune_map_upto(p, pm, n) =~= pm.subrange(0, n));
    } else {
        assert(prune_map_upto(p, pm, n) =~= pm.subrange(0, n));
    }
}

/// Pruning is idempotent: pruning an already pruned log changes neither the
/// action list nor the FID table.
pub proof fn lemma_prune_idempotent(s: Seq<ActionModel>, m: Seq<(u64, Seq<u8>)>)
    requires
        forall|i: int, j: int| 0 <= i < j < m.len() ==> m[i].0 != m[j].0,
        forall|i: int, j: int| 0 <= i < j < m.len() ==> m[i].1 != m[j].1,
    ensures
        prune_actions(prune_actions(s)) == prune_actions(s),
        prune_map(prune_actions(s), prune_map(s, m)) == prune_map(s, m),
{
    let p = prune_actions(s);
    let pm = prune_map(s, m);
    lemma_kept_indices(s, s.len() as int);
    let idx = kept_indices(s, s.len() as int);
    // Nothing in `p` is still purgeable: a create-then-delete pair in `p`
    // would come from a create-then-delete pair of surviving actions in
    // `s`, whose deletion would then have been purged.
    assert forall|f: u64| !purged(p, f) by {
        if purged(p, f) {
            let y = choose|y: int|
                0 <= y < p.len() && (#[trigger] p[y]).is_deletion() && p[y].single_fid() == f
                    && created_before(p, y, f);
            let x = choose|x: int|
                0 <= x < y && (#[trigger] p[x]).is_creation() && p[x].single_fid() == f;
            let i = idx[x];
            let j = idx[y];
            assert(i < j);
            assert(p[x] == s[i] && p[y] == s[j]);
            assert(created_before(s, j, f));
            assert(purged(s, f));
            assert(s[j].fids()[0] == f);
            assert(s[j].fids().contains(f));
            assert(touches_purged(s, s[j]));
            assert(!kept(s, j));
            assert(false);
        }
    }
    // Nothing in `p` is a superseded Chmod/Chown: a later one in `p` would
    // be a later one in `s`, so the earlier would not have survived.
    assert forall|x: int| 0 <= x < p.len() implies !dropped_by_collapse(p, x) by {
        if dropped_by_collapse(p, x) {
            if p[x].is_chmod() && exists|y: int|
                x < y < p.len() && (#[trigger] p[y]).is_chmod() && p[y].single_fid()
                    == p[x].single_fid() {
                let y = choose|y: int|
                    x < y < p.len() && (#[trigger] p[y]).is_chmod() && p[y].single_fid()
                        == p[x].single_fid();
                let i = idx[x];
                let j = idx[y];
                assert(i < j);
                assert(p[x] == s[i] && p[y] == s[j]);
                assert(dropped_by_collapse(s, i));
                assert(!kept(s, i));
                assert(false);
            } else {
                let y = choose|y: int|
                    x < y < p.len() && (#[trigger] p[y]).is_chown() && p[y].single_fid()
                        == p[x].single_fid();
                let i = idx[x];
                let j = idx[y];
                assert(i < j);
                assert(p[x] == s[i] && p[y] == s[j]);
                assert(dropped_by_collapse(s, i));
                assert(!kept(s, i));
                assert(false);
            }
        }
    }
    assert forall|x: int| 0 <= x < p.len() implies kept(p, x) by {
        assert(!dropped_by_collapse(p, x));
        if touches_purged(p, p[x]) {
            let k = choose|k: int| 0 <= k < p[x].fids().len() && purged(p, #[trigger] p[x].fids()[k]);
            assert(!purged(p, p[x].fids()[k]));
            assert(false);
        }
    }
    lemma_prune_noop(p, p.len() as int);
    assert(p.subrange(0, p.len() as int) =~= p);
    // Every FID in `pm` is used by a surviving action of `s`, which is an
    // action of `p`, and every action of `p` survives pruning `p`.
    lemma_prune_map_props(s, m, m.len() as int);
    assert forall|k: int| 0 <= k < pm.len() implies fid_used(p, (#[trigger] pm[k]).0) by {
        let f = pm[k].0;
        assert(fid_used(s, f));
        let i = choose|i: int| 0 <= i < s.len() && kept(s, i) && (#[trigger] s[i]).fids().contains(f);
        assert(idx.contains(i));
        let x = choose|x: int| 0 <= x < idx.len() && idx[x] == i;
        assert(p[x] == s[i]);
        assert(kept(p, x));
        assert(p[x].fids().contains(f));
        assert(fid_used_upto(p, p.len() as int, f));
    }
    lemma_prune_map_noop(p, pm, pm.len() as int);
    assert(pm.subrange(0, pm.len() as int) =~= pm);
}

} // verus!
