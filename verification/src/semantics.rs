use vstd::prelude::*;

use crate::prune::{dropped_by_collapse, kept, prune_actions, prune_actions_upto, purged};
use crate::statediff::ActionModel;

verus! {

// ============================================================
// The replay semantics, modelled: a target tree is a map from relative
// paths to objects, and each action edits the entry its FID resolves to.
// Paths are independent entries: parent directories are implicit, and a
// hard link is modelled as a copy of the source object at the moment of
// linking.
// ============================================================
/// One object in the modelled target tree.
pub enum Node {
    File { data: Seq<u8>, mode: u32, uid: u32, gid: u32 },
    Dir { mode: u32, uid: u32, gid: u32 },
    Symlink { target: Seq<u8>, uid: u32, gid: u32 },
}

/// FID `f` is bound in the model table.
pub open spec fn fid_bound(m: Seq<(u64, Seq<u8>)>, f: u64) -> bool {
    exists|i: int| 0 <= i < m.len() && m[i].0 == f
}

/// The path FID `f` is bound to (meaningful under distinct keys).
pub open spec fn fid_path(m: Seq<(u64, Seq<u8>)>, f: u64) -> Seq<u8> {
    let i = choose|i: int| 0 <= i < m.len() && m[i].0 == f;
    m[i].1
}

/// A run of zero bytes, as a sparse region reads back.
pub open spec fn zeros(n: nat) -> Seq<u8> {
    Seq::new(n, |i: int| 0u8)
}

/// File contents after writing `data` at `off`: splice within the old
/// bytes, or pad the gap beyond end-of-file with zeros (a sparse region).
pub open spec fn write_bytes(old: Seq<u8>, off: int, data: Seq<u8>) -> Seq<u8> {
    if 0 <= off <= old.len() {
        old.subrange(0, off) + data + if off + data.len() < old.len() {
            old.subrange(off + data.len(), old.len() as int)
        } else {
            Seq::empty()
        }
    } else if off > old.len() {
        old + zeros((off - old.len()) as nat) + data
    } else {
        old
    }
}

/// File contents after an explicit length change: cut, or zero-fill.
pub open spec fn truncate_bytes(old: Seq<u8>, size: int) -> Seq<u8> {
    if 0 <= size <= old.len() {
        old.subrange(0, size)
    } else if size > old.len() {
        old + zeros((size - old.len()) as nat)
    } else {
        old
    }
}

/// A file brought into being implicitly by a write or truncate, with the
/// process defaults for mode and ownership.
pub open spec fn implicit_file(data: Seq<u8>) -> Node {
    Node::File { data, mode: 0, uid: 0, gid: 0 }
}

/// The tree after replaying one action. An action whose FID the table
/// does not resolve, and an edit whose object is missing where only a
/// warning is due, leave the tree unchanged.
pub open spec fn apply_action_model(
    t: Map<Seq<u8>, Node>,
    m: Seq<(u64, Seq<u8>)>,
    a: ActionModel,
) -> Map<Seq<u8>, Node> {
    match a {
        ActionModel::Create { fid, uid, gid, mode } => if fid_bound(m, fid) {
            t.insert(fid_path(m, fid), Node::File { data: Seq::empty(), mode, uid, gid })
        } else {
            t
        },
        ActionModel::Write { fid, offset, data } => if fid_bound(m, fid) {
            let q = fid_path(m, fid);
            if !t.contains_key(q) {
                t.insert(q, implicit_file(write_bytes(Seq::empty(), offset as int, data)))
            } else {
                match t[q] {
                    Node::File { data: od, mode, uid, gid } => t.insert(
                        q,
                        Node::File { data: write_bytes(od, offset as int, data), mode, uid, gid },
                    ),
                    _ => t,
                }
            }
        } else {
            t
        },
        ActionModel::Unlink { fid } => if fid_bound(m, fid) {
            t.remove(fid_path(m, fid))
        } else {
            t
        },
        ActionModel::Truncate { fid, size } => if fid_bound(m, fid) {
            let q = fid_path(m, fid);
            if !t.contains_key(q) {
                t.insert(q, implicit_file(truncate_bytes(Seq::empty(), size as int)))
            } else {
                match t[q] {
                    Node::File { data: od, mode, uid, gid } => t.insert(
                        q,
                        Node::File { data: truncate_bytes(od, size as int), mode, uid, gid },
                    ),
                    _ => t,
                }
            }
        } else {
            t
        },
        ActionModel::Rename { from_fid, to_fid } => if fid_bound(m, from_fid) && fid_bound(
            m,
            to_fid,
        ) && t.contains_key(fid_path(m, from_fid)) {
            t.remove(fid_path(m, from_fid)).insert(
                fid_path(m, to_fid),
                t[fid_path(m, from_fid)],
            )
        } else {
            t
        },
        ActionModel::Link { source_fid, new_link_fid } => if fid_bound(m, source_fid) && fid_bound(
            m,
            new_link_fid,
        ) && t.contains_key(fid_path(m, source_fid)) {
            t.insert(fid_path(m, new_link_fid), t[fid_path(m, source_fid)])
        } else {
            t
        },
        ActionModel::Chown { fid, uid, gid } => if fid_bound(m, fid) && t.contains_key(
            fid_path(m, fid),
        ) {
            let q = fid_path(m, fid);
            match t[q] {
                Node::File { data, mode, .. } => t.insert(q, Node::File { data, mode, uid, gid }),
                Node::Dir { mode, .. } => t.insert(q, Node::Dir { mode, uid, gid }),
                Node::Symlink { target, .. } => t.insert(q, Node::Symlink { target, uid, gid }),
            }
        } else {
            t
        },
        ActionModel::Chmod { fid, mode } => if fid_bound(m, fid) && t.contains_key(
            fid_path(m, fid),
        ) {
            let q = fid_path(m, fid);
            match t[q] {
                Node::File { data, uid, gid, .. } => t.insert(
                    q,
                    Node::File { data, mode, uid, gid },
                ),
                Node::Dir { uid, gid, .. } => t.insert(q, Node::Dir { mode, uid, gid }),
                Node::Symlink { .. } => t,
            }
        } else {
            t
        },
        ActionModel::Mkdir { fid } => if fid_bound(m, fid) && !t.contains_key(fid_path(m, fid)) {
            t.insert(fid_path(m, fid), Node::Dir { mode: 0, uid: 0, gid: 0 })
        } else {
            t
        },
        ActionModel::Rmdir { fid } => if fid_bound(m, fid) {
            t.remove(fid_path(m, fid))
        } else {
            t
        },
        ActionModel::Symlink { link_fid, target_path, uid, gid } => if fid_bound(m, link_fid) {
            t.insert(fid_path(m, link_fid), Node::Symlink { target: target_path, uid, gid })
        } else {
            t
        },
    }
}

/// The tree after replaying a whole action list, in order.
pub open spec fn apply_list(
    t: Map<Seq<u8>, Node>,
    m: Seq<(u64, Seq<u8>)>,
    xs: Seq<ActionModel>,
) -> Map<Seq<u8>, Node>
    decreases xs.len(),
{
    if xs.len() == 0 {
        t
    } else {
        apply_action_model(apply_list(t, m, xs.drop_last()), m, xs.last())
    }
}

/// The entry at `q`, or nothing.
pub open spec fn map_at(t: Map<Seq<u8>, Node>, q: Seq<u8>) -> Option<Node> {
    if t.contains_key(q) {
        Some(t[q])
    } else {
        None
    }
}

/// An action that edits exactly the one path its FID names: everything
/// but Rename, Link and Symlink.
pub open spec fn simple_action(a: ActionModel) -> bool {
    match a {
        ActionModel::Rename { .. } => false,
        ActionModel::Link { .. } => false,
        ActionModel::Symlink { .. } => false,
        _ => true,
    }
}

/// A simple action leaves every other path alone.
pub proof fn lemma_apply_frame(
    t: Map<Seq<u8>, Node>,
    m: Seq<(u64, Seq<u8>)>,
    a: ActionModel,
    q: Seq<u8>,
)
    requires
        simple_action(a),
        q != fid_path(m, a.single_fid()),
    ensures
        map_at(apply_action_model(t, m, a), q) == map_at(t, q),
{
}

/// A simple action names exactly one FID.
pub proof fn lemma_simple_fids(a: ActionModel)
    requires
        simple_action(a),
    ensures
        a.fids() == seq![a.single_fid()],
{
    match a {
        ActionModel::Create { .. } => {},
        ActionModel::Write { .. } => {},
        ActionModel::Unlink { .. } => {},
        ActionModel::Truncate { .. } => {},
        ActionModel::Chown { .. } => {},
        ActionModel::Chmod { .. } => {},
        ActionModel::Mkdir { .. } => {},
        ActionModel::Rmdir { .. } => {},
        _ => {},
    }
}

/// A simple action's effect at its own path depends only on what that
/// path held.
pub proof fn lemma_apply_pointwise(
    t1: Map<Seq<u8>, Node>,
    t2: Map<Seq<u8>, Node>,
    m: Seq<(u64, Seq<u8>)>,
    a: ActionModel,
)
    requires
        simple_action(a),
        map_at(t1, fid_path(m, a.single_fid())) == map_at(t2, fid_path(m, a.single_fid())),
    ensures
        map_at(apply_action_model(t1, m, a), fid_path(m, a.single_fid())) == map_at(
            apply_action_model(t2, m, a),
            fid_path(m, a.single_fid()),
        ),
{
}


/// Some ephemeral (created-then-deleted) FID resolves to `q`.
pub open spec fn purged_path(m: Seq<(u64, Seq<u8>)>, s: Seq<ActionModel>, q: Seq<u8>) -> bool {
    exists|f: u64| purged(s, f) && fid_bound(m, f) && #[trigger] fid_path(m, f) == q
}

/// Nothing mentions an ephemeral FID after a deletion of it: the deletion
/// that makes a FID ephemeral is its final mention.
pub open spec fn purge_clean(s: Seq<ActionModel>) -> bool {
    forall|d: int, j: int|
        0 <= d < j < s.len() && (#[trigger] s[d]).is_deletion() && purged(s, s[d].single_fid())
            && (#[trigger] s[j]).single_fid() == s[d].single_fid() ==> false
}

/// The inputs the semantics-preservation law covers: a table with
/// distinct FIDs and distinct paths resolving every action, only
/// single-path actions (no Rename, Link or Symlink), and ephemeral FIDs
/// falling silent after their deletion.
pub open spec fn p5_pre(m: Seq<(u64, Seq<u8>)>, s: Seq<ActionModel>) -> bool {
    &&& forall|i: int, j: int| 0 <= i < j < m.len() ==> m[i].0 != m[j].0
    &&& forall|i: int, j: int| 0 <= i < j < m.len() ==> m[i].1 != m[j].1
    &&& forall|i: int| 0 <= i < s.len() ==> simple_action(#[trigger] s[i])
    &&& forall|i: int| 0 <= i < s.len() ==> fid_bound(m, (#[trigger] s[i]).single_fid())
    &&& purge_clean(s)
}

/// Two bound FIDs with the same path are the same FID.
proof fn lemma_same_path_same_fid(m: Seq<(u64, Seq<u8>)>, f: u64, g: u64)
    requires
        forall|i: int, j: int| 0 <= i < j < m.len() ==> m[i].0 != m[j].0,
        forall|i: int, j: int| 0 <= i < j < m.len() ==> m[i].1 != m[j].1,
        fid_bound(m, f),
        fid_bound(m, g),
        fid_path(m, f) == fid_path(m, g),
    ensures
        f == g,
{
    let i = choose|i: int| 0 <= i < m.len() && m[i].0 == f;
    let j = choose|j: int| 0 <= j < m.len() && m[j].0 == g;
    assert(m[i].1 == fid_path(m, f));
    assert(m[j].1 == fid_path(m, g));
    if i < j {
        assert(m[i].1 != m[j].1);
    } else if j < i {
        assert(m[j].1 != m[i].1);
    }
}

/// For a simple action, touching a purged FID means its one FID is
/// purged.
proof fn lemma_touches_iff_purged(s: Seq<ActionModel>, a: ActionModel)
    requires
        simple_action(a),
    ensures
        crate::prune::touches_purged(s, a) <==> purged(s, a.single_fid()),
{
    lemma_simple_fids(a);
    if purged(s, a.single_fid()) {
        assert(a.fids()[0] == a.single_fid());
        assert(crate::prune::touches_purged(s, a));
    }
    if crate::prune::touches_purged(s, a) {
        let k = choose|k: int| 0 <= k < a.fids().len() && purged(s, #[trigger] a.fids()[k]);
        assert(a.fids()[k] == a.single_fid());
    }
}

/// A Chmod on `f` before position `n` is still awaiting its superseding
/// Chmod at or after `n`: until then the two runs may disagree on the
/// mode at `f`'s path.
pub open spec fn pending_chmod(s: Seq<ActionModel>, n: int, f: u64) -> bool {
    exists|i: int, j: int|
        0 <= i < n && n <= j < s.len() && (#[trigger] s[i]).is_chmod() && s[i].single_fid() == f
            && (#[trigger] s[j]).is_chmod() && s[j].single_fid() == f
}

/// The Chown counterpart of `pending_chmod`.
pub open spec fn pending_chown(s: Seq<ActionModel>, n: int, f: u64) -> bool {
    exists|i: int, j: int|
        0 <= i < n && n <= j < s.len() && (#[trigger] s[i]).is_chown() && s[i].single_fid() == f
            && (#[trigger] s[j]).is_chown() && s[j].single_fid() == f
}

/// The two runs' entries at one path agree: same presence, kind and
/// contents, with the mode (resp. ownership) free to differ while a
/// superseded Chmod (resp. Chown) is pending.
pub open spec fn node_agree(x: Option<Node>, y: Option<Node>, am: bool, ao: bool) -> bool {
    match (x, y) {
        (Option::None, Option::None) => true,
        (Option::Some(a), Option::Some(b)) => match (a, b) {
            (
                Node::File { data: d1, mode: m1, uid: u1, gid: g1 },
                Node::File { data: d2, mode: m2, uid: u2, gid: g2 },
            ) => d1 == d2 && (am || m1 == m2) && (ao || (u1 == u2 && g1 == g2)),
            (
                Node::Dir { mode: m1, uid: u1, gid: g1 },
                Node::Dir { mode: m2, uid: u2, gid: g2 },
            ) => (am || m1 == m2) && (ao || (u1 == u2 && g1 == g2)),
            (
                Node::Symlink { target: t1, uid: u1, gid: g1 },
                Node::Symlink { target: t2, uid: u2, gid: g2 },
            ) => t1 == t2 && (ao || (u1 == u2 && g1 == g2)),
            _ => false,
        },
        _ => false,
    }
}

/// Agreement survives loosening the allowances.
proof fn lemma_agree_mono(x: Option<Node>, y: Option<Node>, am0: bool, ao0: bool, am1: bool, ao1: bool)
    requires
        node_agree(x, y, am0, ao0),
        am0 ==> am1,
        ao0 ==> ao1,
    ensures
        node_agree(x, y, am1, ao1),
{
}

/// Applying the same simple action to two agreeing states keeps them in
/// agreement: a Chmod equalises the mode, a Chown the ownership, and
/// everything else preserves the fields it does not touch.
proof fn lemma_apply_preserves_agree(
    t1: Map<Seq<u8>, Node>,
    t2: Map<Seq<u8>, Node>,
    m: Seq<(u64, Seq<u8>)>,
    a: ActionModel,
    am0: bool,
    ao0: bool,
    am1: bool,
    ao1: bool,
)
    requires
        simple_action(a),
        fid_bound(m, a.single_fid()),
        node_agree(map_at(t1, fid_path(m, a.single_fid())), map_at(t2, fid_path(m, a.single_fid())), am0, ao0),
        a.is_chmod() || (am0 ==> am1),
        a.is_chown() || (ao0 ==> ao1),
    ensures
        node_agree(
            map_at(apply_action_model(t1, m, a), fid_path(m, a.single_fid())),
            map_at(apply_action_model(t2, m, a), fid_path(m, a.single_fid())),
            am1,
            ao1,
        ),
{
}

/// Skipping a superseded Chmod in the pruned run keeps the states in
/// agreement, with the mode now free to differ.
proof fn lemma_chmod_skip_agree(
    t1: Map<Seq<u8>, Node>,
    t2: Map<Seq<u8>, Node>,
    m: Seq<(u64, Seq<u8>)>,
    a: ActionModel,
    am0: bool,
    ao0: bool,
    ao1: bool,
)
    requires
        a.is_chmod(),
        fid_bound(m, a.single_fid()),
        node_agree(map_at(t1, fid_path(m, a.single_fid())), map_at(t2, fid_path(m, a.single_fid())), am0, ao0),
        ao0 ==> ao1,
    ensures
        node_agree(
            map_at(apply_action_model(t1, m, a), fid_path(m, a.single_fid())),
            map_at(t2, fid_path(m, a.single_fid())),
            true,
            ao1,
        ),
{
}

/// Skipping a superseded Chown in the pruned run keeps the states in
/// agreement, with the ownership now free to differ.
proof fn lemma_chown_skip_agree(
    t1: Map<Seq<u8>, Node>,
    t2: Map<Seq<u8>, Node>,
    m: Seq<(u64, Seq<u8>)>,
    a: ActionModel,
    am0: bool,
    ao0: bool,
    am1: bool,
)
    requires
        a.is_chown(),
        fid_bound(m, a.single_fid()),
        node_agree(map_at(t1, fid_path(m, a.single_fid())), map_at(t2, fid_path(m, a.single_fid())), am0, ao0),
        am0 ==> am1,
    ensures
        node_agree(
            map_at(apply_action_model(t1, m, a), fid_path(m, a.single_fid())),
            map_at(t2, fid_path(m, a.single_fid())),
            am1,
            true,
        ),
{
}

/// No bound FID names `q`: nothing ever touches it.
pub open spec fn unbound_path(m: Seq<(u64, Seq<u8>)>, q: Seq<u8>) -> bool {
    forall|f: u64| fid_bound(m, f) ==> #[trigger] fid_path(m, f) != q
}

/// A pending Chmod/Chown on `f` survives a step whose action names a
/// different FID (or is no Chmod/Chown at all).
proof fn lemma_pending_step(s: Seq<ActionModel>, n: int, f: u64)
    requires
        1 <= n <= s.len(),
        s[n - 1].single_fid() != f || (!s[n - 1].is_chmod() && !s[n - 1].is_chown()),
    ensures
        pending_chmod(s, n - 1, f) ==> pending_chmod(s, n, f),
        pending_chown(s, n - 1, f) ==> pending_chown(s, n, f),
{
    if pending_chmod(s, n - 1, f) {
        let (i, j) = choose|i: int, j: int|
            0 <= i < n - 1 && n - 1 <= j < s.len() && (#[trigger] s[i]).is_chmod()
                && s[i].single_fid() == f && (#[trigger] s[j]).is_chmod() && s[j].single_fid() == f;
        assert(j != n - 1);
        assert(pending_chmod(s, n, f));
    }
    if pending_chown(s, n - 1, f) {
        let (i, j) = choose|i: int, j: int|
            0 <= i < n - 1 && n - 1 <= j < s.len() && (#[trigger] s[i]).is_chown()
                && s[i].single_fid() == f && (#[trigger] s[j]).is_chown() && s[j].single_fid() == f;
        assert(j != n - 1);
        assert(pending_chown(s, n, f));
    }
}

/// The two runs in step: after any prefix, the full and the pruned run
/// agree (up to pending Chmod/Chown differences) at the path of every
/// surviving FID, the pruned run never touches an ephemeral path, and
/// neither run touches a path no FID names.
proof fn lemma_p5_induct(m: Seq<(u64, Seq<u8>)>, s: Seq<ActionModel>, n: int)
    requires
        p5_pre(m, s),
        0 <= n <= s.len(),
    ensures
        forall|f: u64|
            fid_bound(m, f) && !purged(s, f) ==> node_agree(
                map_at(apply_list(Map::empty(), m, s.subrange(0, n)), #[trigger] fid_path(m, f)),
                map_at(apply_list(Map::empty(), m, prune_actions_upto(s, n)), fid_path(m, f)),
                pending_chmod(s, n, f),
                pending_chown(s, n, f),
            ),
        forall|q: Seq<u8>|
            purged_path(m, s, q) ==> map_at(
                apply_list(Map::empty(), m, prune_actions_upto(s, n)),
                q,
            ) is None,
        forall|q: Seq<u8>|
            unbound_path(m, q) ==> map_at(apply_list(Map::empty(), m, s.subrange(0, n)), q) is None
                && map_at(apply_list(Map::empty(), m, prune_actions_upto(s, n)), q) is None,
    decreases n,
{
    if n == 0 {
        assert(s.subrange(0, 0) =~= Seq::<ActionModel>::empty());
        assert(prune_actions_upto(s, 0) =~= Seq::<ActionModel>::empty());
    } else {
        lemma_p5_induct(m, s, n - 1);
        let a = s[n - 1];
        let tf0 = apply_list(Map::empty(), m, s.subrange(0, n - 1));
        let tp0 = apply_list(Map::empty(), m, prune_actions_upto(s, n - 1));
        let tf1 = apply_list(Map::empty(), m, s.subrange(0, n));
        assert(s.subrange(0, n).drop_last() =~= s.subrange(0, n - 1));
        assert(s.subrange(0, n).last() == a);
        assert(tf1 == apply_action_model(tf0, m, a));
        let fa = a.single_fid();
        let qa = fid_path(m, fa);
        lemma_touches_iff_purged(s, a);
        if kept(s, n - 1) {
            assert(!purged(s, fa));
            assert(prune_actions_upto(s, n) == prune_actions_upto(s, n - 1) + seq![a]);
            let pl = prune_actions_upto(s, n);
            assert(pl.drop_last() =~= prune_actions_upto(s, n - 1));
            assert(pl.last() == a);
            let tp1 = apply_list(Map::empty(), m, pl);
            assert(tp1 == apply_action_model(tp0, m, a));
            assert forall|f: u64| fid_bound(m, f) && !purged(s, f) implies node_agree(
                map_at(tf1, #[trigger] fid_path(m, f)),
                map_at(tp1, fid_path(m, f)),
                pending_chmod(s, n, f),
                pending_chown(s, n, f),
            ) by {
                if fid_path(m, f) == qa {
                    lemma_same_path_same_fid(m, f, fa);
                    if a.is_chmod() {
                        // A kept Chmod is the last one on its FID, so no
                        // Chmod is pending afterwards and the mode is
                        // equalised; ownership pendings carry over.
                        lemma_pending_step_chmod_kept(s, n, f);
                        lemma_apply_preserves_agree(
                            tf0,
                            tp0,
                            m,
                            a,
                            pending_chmod(s, n - 1, f),
                            pending_chown(s, n - 1, f),
                            pending_chmod(s, n, f),
                            pending_chown(s, n, f),
                        );
                    } else if a.is_chown() {
                        lemma_pending_step_chown_kept(s, n, f);
                        lemma_apply_preserves_agree(
                            tf0,
                            tp0,
                            m,
                            a,
                            pending_chmod(s, n - 1, f),
                            pending_chown(s, n - 1, f),
                            pending_chmod(s, n, f),
                            pending_chown(s, n, f),
                        );
                    } else {
                        lemma_pending_step(s, n, f);
                        lemma_apply_preserves_agree(
                            tf0,
                            tp0,
                            m,
                            a,
                            pending_chmod(s, n - 1, f),
                            pending_chown(s, n - 1, f),
                            pending_chmod(s, n, f),
                            pending_chown(s, n, f),
                        );
                    }
                } else {
                    assert(f != fa) by {
                        if f == fa {
                            assert(fid_path(m, f) == qa);
                        }
                    }
                    lemma_apply_frame(tf0, m, a, fid_path(m, f));
                    lemma_apply_frame(tp0, m, a, fid_path(m, f));
                    lemma_pending_step(s, n, f);
                    lemma_agree_mono(
                        map_at(tf0, fid_path(m, f)),
                        map_at(tp0, fid_path(m, f)),
                        pending_chmod(s, n - 1, f),
                        pending_chown(s, n - 1, f),
                        pending_chmod(s, n, f),
                        pending_chown(s, n, f),
                    );
                }
            }
            assert(!purged_path(m, s, qa)) by {
                if purged_path(m, s, qa) {
                    let g = choose|g: u64|
                        purged(s, g) && fid_bound(m, g) && #[trigger] fid_path(m, g) == qa;
                    lemma_same_path_same_fid(m, fa, g);
                }
            }
            assert forall|q: Seq<u8>| purged_path(m, s, q) implies map_at(tp1, q) is None by {
                assert(q != qa);
                lemma_apply_frame(tp0, m, a, q);
            }
            assert forall|q: Seq<u8>| unbound_path(m, q) implies map_at(tf1, q) is None && map_at(
                tp1,
                q,
            ) is None by {
                assert(qa != q);
                lemma_apply_frame(tf0, m, a, q);
                lemma_apply_frame(tp0, m, a, q);
            }
        } else {
            // The pruned run skips this action: either its FID is
            // ephemeral, or it is a superseded Chmod/Chown.
            assert(prune_actions_upto(s, n) =~= prune_actions_upto(s, n - 1));
            let dropped_meta = !crate::prune::touches_purged(s, a);
            if dropped_meta {
                assert(dropped_by_collapse(s, n - 1));
                assert(a.is_chmod() || a.is_chown());
                assert(!purged(s, fa));
            } else {
                assert(purged(s, fa));
            }
            assert forall|f: u64| fid_bound(m, f) && !purged(s, f) implies node_agree(
                map_at(tf1, #[trigger] fid_path(m, f)),
                map_at(tp0, fid_path(m, f)),
                pending_chmod(s, n, f),
                pending_chown(s, n, f),
            ) by {
                if fid_path(m, f) == qa {
                    lemma_same_path_same_fid(m, f, fa);
                    assert(!dropped_meta ==> purged(s, f));
                    assert(dropped_meta);
                    if a.is_chmod() {
                        assert(pending_chmod(s, n, f)) by {
                            let j = choose|j: int|
                                n - 1 < j < s.len() && (#[trigger] s[j]).is_chmod()
                                    && s[j].single_fid() == a.single_fid();
                            assert(s[n - 1].is_chmod() && s[n - 1].single_fid() == f);
                            assert(s[j].is_chmod() && s[j].single_fid() == f && n <= j);
                        }
                        lemma_pending_step_only_chown(s, n, f);
                        lemma_chmod_skip_agree(
                            tf0,
                            tp0,
                            m,
                            a,
                            pending_chmod(s, n - 1, f),
                            pending_chown(s, n - 1, f),
                            pending_chown(s, n, f),
                        );
                    } else {
                        assert(a.is_chown());
                        assert(pending_chown(s, n, f)) by {
                            let j = choose|j: int|
                                n - 1 < j < s.len() && (#[trigger] s[j]).is_chown()
                                    && s[j].single_fid() == a.single_fid();
                            assert(s[n - 1].is_chown() && s[n - 1].single_fid() == f);
                            assert(s[j].is_chown() && s[j].single_fid() == f && n <= j);
                        }
                        lemma_pending_step_only_chmod(s, n, f);
                        lemma_chown_skip_agree(
                            tf0,
                            tp0,
                            m,
                            a,
                            pending_chmod(s, n - 1, f),
                            pending_chown(s, n - 1, f),
                            pending_chmod(s, n, f),
                        );
                    }
                } else {
                    assert(f != fa) by {
                        if f == fa {
                            assert(fid_path(m, f) == qa);
                        }
                    }
                    lemma_apply_frame(tf0, m, a, fid_path(m, f));
                    lemma_pending_step(s, n, f);
                    lemma_agree_mono(
                        map_at(tf0, fid_path(m, f)),
                        map_at(tp0, fid_path(m, f)),
                        pending_chmod(s, n - 1, f),
                        pending_chown(s, n - 1, f),
                        pending_chmod(s, n, f),
                        pending_chown(s, n, f),
                    );
                }
            }
            assert forall|q: Seq<u8>| unbound_path(m, q) implies map_at(tf1, q) is None && map_at(
                tp0,
                q,
            ) is None by {
                assert(qa != q);
                lemma_apply_frame(tf0, m, a, q);
            }
        }
    }
}

/// After a kept (final) Chmod on `f`, no Chmod on `f` is pending; Chown
/// pendings carry over.
proof fn lemma_pending_step_chmod_kept(s: Seq<ActionModel>, n: int, f: u64)
    requires
        1 <= n <= s.len(),
        s[n - 1].is_chmod(),
        s[n - 1].single_fid() == f,
        !dropped_by_collapse(s, n - 1),
    ensures
        !pending_chmod(s, n, f),
        pending_chown(s, n - 1, f) ==> pending_chown(s, n, f),
{
    if pending_chmod(s, n, f) {
        let (i, j) = choose|i: int, j: int|
            0 <= i < n && n <= j < s.len() && (#[trigger] s[i]).is_chmod() && s[i].single_fid() == f
                && (#[trigger] s[j]).is_chmod() && s[j].single_fid() == f;
        assert(n - 1 < j < s.len() && s[j].is_chmod() && s[j].single_fid() == s[n - 1].single_fid());
        assert(dropped_by_collapse(s, n - 1));
    }
    if pending_chown(s, n - 1, f) {
        let (i, j) = choose|i: int, j: int|
            0 <= i < n - 1 && n - 1 <= j < s.len() && (#[trigger] s[i]).is_chown()
                && s[i].single_fid() == f && (#[trigger] s[j]).is_chown() && s[j].single_fid() == f;
        assert(!s[n - 1].is_chown());
        assert(j != n - 1);
        assert(pending_chown(s, n, f));
    }
}

/// After a kept (final) Chown on `f`, no Chown on `f` is pending; Chmod
/// pendings carry over.
proof fn lemma_pending_step_chown_kept(s: Seq<ActionModel>, n: int, f: u64)
    requires
        1 <= n <= s.len(),
        s[n - 1].is_chown(),
        s[n - 1].single_fid() == f,
        !dropped_by_collapse(s, n - 1),
    ensures
        !pending_chown(s, n, f),
        pending_chmod(s, n - 1, f) ==> pending_chmod(s, n, f),
{
    if pending_chown(s, n, f) {
        let (i, j) = choose|i: int, j: int|
            0 <= i < n && n <= j < s.len() && (#[trigger] s[i]).is_chown() && s[i].single_fid() == f
                && (#[trigger] s[j]).is_chown() && s[j].single_fid() == f;
        assert(n - 1 < j < s.len() && s[j].is_chown() && s[j].single_fid() == s[n - 1].single_fid());
        assert(dropped_by_collapse(s, n - 1));
    }
    if pending_chmod(s, n - 1, f) {
        let (i, j) = choose|i: int, j: int|
            0 <= i < n - 1 && n - 1 <= j < s.len() && (#[trigger] s[i]).is_chmod()
                && s[i].single_fid() == f && (#[trigger] s[j]).is_chmod() && s[j].single_fid() == f;
        assert(!s[n - 1].is_chmod());
        assert(j != n - 1);
        assert(pending_chmod(s, n, f));
    }
}

/// A Chmod step carries Chown pendings over.
proof fn lemma_pending_step_only_chown(s: Seq<ActionModel>, n: int, f: u64)
    requires
        1 <= n <= s.len(),
        s[n - 1].is_chmod(),
    ensures
        pending_chown(s, n - 1, f) ==> pending_chown(s, n, f),
{
    if pending_chown(s, n - 1, f) {
        let (i, j) = choose|i: int, j: int|
            0 <= i < n - 1 && n - 1 <= j < s.len() && (#[trigger] s[i]).is_chown()
                && s[i].single_fid() == f && (#[trigger] s[j]).is_chown() && s[j].single_fid() == f;
        assert(!s[n - 1].is_chown());
        assert(j != n - 1);
        assert(pending_chown(s, n, f));
    }
}

/// A Chown step carries Chmod pendings over.
proof fn lemma_pending_step_only_chmod(s: Seq<ActionModel>, n: int, f: u64)
    requires
        1 <= n <= s.len(),
        s[n - 1].is_chown(),
    ensures
        pending_chmod(s, n - 1, f) ==> pending_chmod(s, n, f),
{
    if pending_chmod(s, n - 1, f) {
        let (i, j) = choose|i: int, j: int|
            0 <= i < n - 1 && n - 1 <= j < s.len() && (#[trigger] s[i]).is_chmod()
                && s[i].single_fid() == f && (#[trigger] s[j]).is_chmod() && s[j].single_fid() == f;
        assert(!s[n - 1].is_chmod());
        assert(j != n - 1);
        assert(pending_chmod(s, n, f));
    }
}

/// A stretch of actions that never name `q` leaves `q` alone.
proof fn lemma_untouched_range(
    m: Seq<(u64, Seq<u8>)>,
    s: Seq<ActionModel>,
    q: Seq<u8>,
    from: int,
    to: int,
)
    requires
        p5_pre(m, s),
        0 <= from <= to <= s.len(),
        forall|i: int| from <= i < to ==> fid_path(m, (#[trigger] s[i]).single_fid()) != q,
    ensures
        map_at(apply_list(Map::empty(), m, s.subrange(0, to)), q) == map_at(
            apply_list(Map::empty(), m, s.subrange(0, from)),
            q,
        ),
    decreases to - from,
{
    if to > from {
        lemma_untouched_range(m, s, q, from, to - 1);
        let a = s[to - 1];
        assert(s.subrange(0, to).drop_last() =~= s.subrange(0, to - 1));
        assert(s.subrange(0, to).last() == a);
        lemma_apply_frame(apply_list(Map::empty(), m, s.subrange(0, to - 1)), m, a, q);
    }
}

/// At the end of the full run every ephemeral path is gone: the deletion
/// that made its FID ephemeral was the last action to name it.
proof fn lemma_purged_paths_end_absent(m: Seq<(u64, Seq<u8>)>, s: Seq<ActionModel>)
    requires
        p5_pre(m, s),
    ensures
        forall|q: Seq<u8>|
            purged_path(m, s, q) ==> map_at(apply_list(Map::empty(), m, s), q) is None,
{
    assert forall|q: Seq<u8>| purged_path(m, s, q) implies map_at(
        apply_list(Map::empty(), m, s),
        q,
    ) is None by {
        let f = choose|f: u64| purged(s, f) && fid_bound(m, f) && #[trigger] fid_path(m, f) == q;
        let d = choose|d: int|
            0 <= d < s.len() && (#[trigger] s[d]).is_deletion() && s[d].single_fid() == f
                && crate::prune::created_before(s, d, f);
        // Applying the deletion removes the entry at `q`.
        assert(s.subrange(0, d + 1).drop_last() =~= s.subrange(0, d));
        assert(s.subrange(0, d + 1).last() == s[d]);
        let td = apply_list(Map::empty(), m, s.subrange(0, d));
        let td1 = apply_list(Map::empty(), m, s.subrange(0, d + 1));
        assert(td1 == apply_action_model(td, m, s[d]));
        assert(map_at(td1, q) is None) by {
            match s[d] {
                ActionModel::Unlink { fid } => {
                    assert(fid == f);
                    assert(td1 == td.remove(q));
                },
                ActionModel::Rmdir { fid } => {
                    assert(fid == f);
                    assert(td1 == td.remove(q));
                },
                _ => {
                    assert(false);
                },
            }
        }
        // Nothing after the deletion names `q` again.
        assert forall|i: int| d + 1 <= i < s.len() implies fid_path(
            m,
            (#[trigger] s[i]).single_fid(),
        ) != q by {
            if fid_path(m, s[i].single_fid()) == q {
                lemma_same_path_same_fid(m, s[i].single_fid(), f);
                assert(s[i].single_fid() == s[d].single_fid());
                assert(false);
            }
        }
        lemma_untouched_range(m, s, q, d + 1, s.len() as int);
        assert(s.subrange(0, s.len() as int) =~= s);
    }
}

/// Pruning is semantics-preserving: replaying the pruned log against an
/// empty target yields the same tree as replaying the original log, for
/// every log within `p5_pre`. Hard links, renames and symbolic links are
/// left out: an ephemeral FID reached through them can carry an effect
/// the purge would lose.
pub proof fn lemma_prune_semantics_preserving(m: Seq<(u64, Seq<u8>)>, s: Seq<ActionModel>)
    requires
        p5_pre(m, s),
    ensures
        apply_list(Map::empty(), m, prune_actions(s)) == apply_list(Map::empty(), m, s),
{
    lemma_p5_induct(m, s, s.len() as int);
    lemma_purged_paths_end_absent(m, s);
    let tf = apply_list(Map::empty(), m, s);
    let tp = apply_list(Map::empty(), m, prune_actions(s));
    assert(s.subrange(0, s.len() as int) =~= s);
    assert forall|q: Seq<u8>|
        #![trigger tf.contains_key(q)]
        #![trigger tp.contains_key(q)]
        map_at(tf, q) == map_at(tp, q) by {
        if unbound_path(m, q) {
            assert(map_at(tf, q) is None && map_at(tp, q) is None);
        } else {
            let f = choose|f: u64| fid_bound(m, f) && #[trigger] fid_path(m, f) == q;
            if purged(s, f) {
                assert(purged_path(m, s, q));
                assert(map_at(tp, q) is None);
                assert(map_at(tf, q) is None);
            } else {
                assert(!pending_chmod(s, s.len() as int, f)) by {
                    if pending_chmod(s, s.len() as int, f) {
                        let (i, j) = choose|i: int, j: int|
                            0 <= i < s.len() && s.len() <= j < s.len() && (#[trigger] s[i]).is_chmod()
                                && s[i].single_fid() == f && (#[trigger] s[j]).is_chmod()
                                && s[j].single_fid() == f;
                        assert(false);
                    }
                }
                assert(!pending_chown(s, s.len() as int, f)) by {
                    if pending_chown(s, s.len() as int, f) {
                        let (i, j) = choose|i: int, j: int|
                            0 <= i < s.len() && s.len() <= j < s.len() && (#[trigger] s[i]).is_chown()
                                && s[i].single_fid() == f && (#[trigger] s[j]).is_chown()
                                && s[j].single_fid() == f;
                        assert(false);
                    }
                }
                assert(node_agree(map_at(tf, q), map_at(tp, q), false, false));
                match (map_at(tf, q), map_at(tp, q)) {
                    (Option::Some(x), Option::Some(y)) => {
                        assert(x == y);
                    },
                    _ => {},
                }
            }
        }
    }
    assert forall|q: Seq<u8>| tf.contains_key(q) <==> tp.contains_key(q) by {
        assert(map_at(tf, q) == map_at(tp, q));
    }
    assert forall|q: Seq<u8>| tf.contains_key(q) implies tf[q] == tp[q] by {
        assert(map_at(tf, q) == map_at(tp, q));
    }
    assert(tp =~= tf);
}


/// Replay does not care which of two tables resolves the FIDs, as long
/// as they agree on every FID the actions name.
proof fn lemma_apply_list_table_agree(
    t: Map<Seq<u8>, Node>,
    m1: Seq<(u64, Seq<u8>)>,
    m2: Seq<(u64, Seq<u8>)>,
    xs: Seq<ActionModel>,
)
    requires
        forall|i: int|
            0 <= i < xs.len() ==> {
                &&& simple_action(#[trigger] xs[i])
                &&& fid_bound(m1, xs[i].single_fid())
                &&& fid_bound(m2, xs[i].single_fid())
                &&& fid_path(m1, xs[i].single_fid()) == fid_path(m2, xs[i].single_fid())
            },
    ensures
        apply_list(t, m1, xs) == apply_list(t, m2, xs),
    decreases xs.len(),
{
    if xs.len() > 0 {
        let a = xs.last();
        assert(forall|i: int| 0 <= i < xs.drop_last().len() ==> xs.drop_last()[i] == xs[i]);
        lemma_apply_list_table_agree(t, m1, m2, xs.drop_last());
        let t0 = apply_list(t, m1, xs.drop_last());
        assert(a == xs[xs.len() - 1]);
        assert(apply_action_model(t0, m1, a) == apply_action_model(t0, m2, a));
    }
}

/// Pruning is semantics-preserving end to end: replaying the pruned log
/// - its rewritten action list resolved through its own compacted FID
/// table - against an empty target yields the same tree as replaying the
/// original log.
pub proof fn lemma_prune_semantics_with_pruned_table(m: Seq<(u64, Seq<u8>)>, s: Seq<ActionModel>)
    requires
        p5_pre(m, s),
    ensures
        apply_list(Map::empty(), crate::prune::prune_map(s, m), prune_actions(s)) == apply_list(
            Map::empty(),
            m,
            s,
        ),
{
    lemma_prune_semantics_preserving(m, s);
    let p = prune_actions(s);
    let pm = crate::prune::prune_map(s, m);
    crate::prune::lemma_prune_map_props(s, m, m.len() as int);
    crate::prune::lemma_kept_indices(s, s.len() as int);
    assert forall|x: int| 0 <= x < p.len() implies {
        &&& simple_action(#[trigger] p[x])
        &&& fid_bound(m, p[x].single_fid())
        &&& fid_bound(pm, p[x].single_fid())
        &&& fid_path(pm, p[x].single_fid()) == fid_path(m, p[x].single_fid())
    } by {
        let i = crate::prune::kept_indices(s, s.len() as int)[x];
        assert(p[x] == s[i] && kept(s, i));
        let f = s[i].single_fid();
        lemma_simple_fids(s[i]);
        assert(s[i].fids()[0] == f);
        assert(s[i].fids().contains(f));
        assert(crate::prune::fid_used(s, f));
        let w = choose|w: int| 0 <= w < m.len() && m[w].0 == f;
        assert(crate::prune::prune_map_upto(s, m, m.len() as int).contains(m[w]));
        let k = choose|k: int| 0 <= k < pm.len() && pm[k] == m[w];
        assert(pm[k].0 == f);
        assert(fid_bound(pm, f));
        // Both tables resolve `f` through entries that are the same pair.
        let wm = choose|wm: int| 0 <= wm < m.len() && m[wm].0 == f;
        assert(m[wm].1 == fid_path(m, f));
        if wm < w {
            assert(m[wm].0 != m[w].0);
        } else if w < wm {
            assert(m[w].0 != m[wm].0);
        }
        assert(wm == w);
        let wp = choose|wp: int| 0 <= wp < pm.len() && pm[wp].0 == f;
        assert(pm[wp].1 == fid_path(pm, f));
        if wp < k {
            assert(pm[wp].0 != pm[k].0);
        } else if k < wp {
            assert(pm[k].0 != pm[wp].0);
        }
        assert(wp == k);
        assert(fid_path(pm, f) == m[w].1);
    }
    lemma_apply_list_table_agree(Map::empty(), pm, m, p);
}

} // verus!
