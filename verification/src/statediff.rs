use vstd::prelude::*;

verus! {

/// A single mutation recorded by the interceptor, to be replayed by the
/// applier. The variant order is part of the wire contract: the codec
/// assigns tag bytes in declaration order, starting at 0.
///
/// Relative paths are byte strings (Unix paths are bytes on the wire), with
/// forward-slash separators and no leading `./`; the root is `.`.
pub enum StateDiffAction {
    Create { fid: u64, uid: u32, gid: u32, mode: u32 },
    Write { fid: u64, offset: u64, data: Vec<u8> },
    Unlink { fid: u64 },
    Truncate { fid: u64, size: u64 },
    Rename { from_fid: u64, to_fid: u64 },
    Link { source_fid: u64, new_link_fid: u64 },
    Chown { fid: u64, uid: u32, gid: u32 },
    Chmod { fid: u64, mode: u32 },
    Mkdir { fid: u64 },
    Rmdir { fid: u64 },
    Symlink { link_fid: u64, target_path: Vec<u8>, uid: u32, gid: u32 },
}

impl StateDiffAction {
    /// The file identifiers this action refers to, in field order.
    pub open spec fn fids(&self) -> Seq<u64> {
        self.model().fids()
    }

}

/// The FIDs this action refers to, as a vector (executable counterpart of
/// [`StateDiffAction::fids`]).
pub fn action_fids(a: &StateDiffAction) -> (r: Vec<u64>)
    ensures
        r@ == a.fids(),
{
    match a {
        StateDiffAction::Create { fid, .. } => vec![*fid],
        StateDiffAction::Write { fid, .. } => vec![*fid],
        StateDiffAction::Unlink { fid } => vec![*fid],
        StateDiffAction::Truncate { fid, .. } => vec![*fid],
        StateDiffAction::Rename { from_fid, to_fid } => vec![*from_fid, *to_fid],
        StateDiffAction::Link { source_fid, new_link_fid } => vec![*source_fid, *new_link_fid],
        StateDiffAction::Chown { fid, .. } => vec![*fid],
        StateDiffAction::Chmod { fid, .. } => vec![*fid],
        StateDiffAction::Mkdir { fid } => vec![*fid],
        StateDiffAction::Rmdir { fid } => vec![*fid],
        StateDiffAction::Symlink { link_fid, .. } => vec![*link_fid],
    }
}

/// The in-memory state-diff log: an ordered action list plus the FID table
/// mapping each file identifier to its relative path.
pub struct StateDiffLog {
    pub fid_map: Vec<(u64, Vec<u8>)>,
    pub actions: Vec<StateDiffAction>,
}

/// Mathematical model of an action: the same shape with byte vectors
/// abstracted to byte sequences.
pub enum ActionModel {
    Create { fid: u64, uid: u32, gid: u32, mode: u32 },
    Write { fid: u64, offset: u64, data: Seq<u8> },
    Unlink { fid: u64 },
    Truncate { fid: u64, size: u64 },
    Rename { from_fid: u64, to_fid: u64 },
    Link { source_fid: u64, new_link_fid: u64 },
    Chown { fid: u64, uid: u32, gid: u32 },
    Chmod { fid: u64, mode: u32 },
    Mkdir { fid: u64 },
    Rmdir { fid: u64 },
    Symlink { link_fid: u64, target_path: Seq<u8>, uid: u32, gid: u32 },
}

impl ActionModel {
    /// The file identifiers this action refers to, in field order.
    pub open spec fn fids(&self) -> Seq<u64> {
        match *self {
            ActionModel::Create { fid, .. } => seq![fid],
            ActionModel::Write { fid, .. } => seq![fid],
            ActionModel::Unlink { fid } => seq![fid],
            ActionModel::Truncate { fid, .. } => seq![fid],
            ActionModel::Rename { from_fid, to_fid } => seq![from_fid, to_fid],
            ActionModel::Link { source_fid, new_link_fid } => seq![source_fid, new_link_fid],
            ActionModel::Chown { fid, .. } => seq![fid],
            ActionModel::Chmod { fid, .. } => seq![fid],
            ActionModel::Mkdir { fid } => seq![fid],
            ActionModel::Rmdir { fid } => seq![fid],
            ActionModel::Symlink { link_fid, .. } => seq![link_fid],
        }
    }

    /// The FID of an action that names exactly one.
    pub open spec fn single_fid(&self) -> u64 {
        self.fids()[0]
    }

    /// True of the actions that bring a new object into existence at their path.
    pub open spec fn is_creation(&self) -> bool {
        match *self {
            ActionModel::Create { .. } => true,
            ActionModel::Mkdir { .. } => true,
            ActionModel::Symlink { .. } => true,
            _ => false,
        }
    }

    /// True of the actions that remove the object at their path.
    pub open spec fn is_deletion(&self) -> bool {
        match *self {
            ActionModel::Unlink { .. } => true,
            ActionModel::Rmdir { .. } => true,
            _ => false,
        }
    }

    pub open spec fn is_chmod(&self) -> bool {
        match *self {
            ActionModel::Chmod { .. } => true,
            _ => false,
        }
    }

    pub open spec fn is_chown(&self) -> bool {
        match *self {
            ActionModel::Chown { .. } => true,
            _ => false,
        }
    }
}

/// Mathematical model of a log: the FID table and action list as sequences.
pub struct LogModel {
    pub fid_map: Seq<(u64, Seq<u8>)>,
    pub actions: Seq<ActionModel>,
}

/// Model of a FID table or inode table: byte vectors abstracted to
/// sequences.
pub open spec fn entries_model(v: Seq<(u64, Vec<u8>)>) -> Seq<(u64, Seq<u8>)> {
    v.map_values(|e: (u64, Vec<u8>)| (e.0, e.1@))
}

/// Model of an action list.
pub open spec fn actions_model(v: Seq<StateDiffAction>) -> Seq<ActionModel> {
    v.map_values(|a: StateDiffAction| a.model())
}

impl LogModel {
    pub open spec fn empty() -> LogModel {
        LogModel { fid_map: Seq::empty(), actions: Seq::empty() }
    }
}

impl StateDiffAction {
    /// The model this action denotes.
    pub open spec fn model(&self) -> ActionModel {
        match *self {
            StateDiffAction::Create { fid, uid, gid, mode } => ActionModel::Create {
                fid,
                uid,
                gid,
                mode,
            },
            StateDiffAction::Write { fid, offset, data } => ActionModel::Write {
                fid,
                offset,
                data: data@,
            },
            StateDiffAction::Unlink { fid } => ActionModel::Unlink { fid },
            StateDiffAction::Truncate { fid, size } => ActionModel::Truncate { fid, size },
            StateDiffAction::Rename { from_fid, to_fid } => ActionModel::Rename {
                from_fid,
                to_fid,
            },
            StateDiffAction::Link { source_fid, new_link_fid } => ActionModel::Link {
                source_fid,
                new_link_fid,
            },
            StateDiffAction::Chown { fid, uid, gid } => ActionModel::Chown { fid, uid, gid },
            StateDiffAction::Chmod { fid, mode } => ActionModel::Chmod { fid, mode },
            StateDiffAction::Mkdir { fid } => ActionModel::Mkdir { fid },
            StateDiffAction::Rmdir { fid } => ActionModel::Rmdir { fid },
            StateDiffAction::Symlink { link_fid, target_path, uid, gid } => ActionModel::Symlink {
                link_fid,
                target_path: target_path@,
                uid,
                gid,
            },
        }
    }
}

/// `f` is a key of the FID table `m`.
pub open spec fn table_has_fid(m: Seq<(u64, Vec<u8>)>, f: u64) -> bool {
    exists|i: int| 0 <= i < m.len() && m[i].0 == f
}

/// `p` is a path of the FID table `m`.
pub open spec fn table_has_path(m: Seq<(u64, Vec<u8>)>, p: Seq<u8>) -> bool {
    exists|i: int| 0 <= i < m.len() && m[i].1@ == p
}

/// The path bound to `f` in `m` (meaningful only when `table_has_fid` holds
/// and keys are distinct).
pub open spec fn table_path_of(m: Seq<(u64, Vec<u8>)>, f: u64) -> Seq<u8> {
    let i = choose|i: int| 0 <= i < m.len() && m[i].0 == f;
    m[i].1@
}

/// The FID bound to path `p` in `m` (meaningful only when `table_has_path`
/// holds and paths are distinct).
pub open spec fn table_fid_of(m: Seq<(u64, Vec<u8>)>, p: Seq<u8>) -> u64 {
    let i = choose|i: int| 0 <= i < m.len() && m[i].1@ == p;
    m[i].0
}

/// Keys of the table are pairwise distinct, and so are paths.
pub open spec fn table_wf(m: Seq<(u64, Vec<u8>)>) -> bool {
    &&& forall|i: int, j: int| 0 <= i < j < m.len() ==> m[i].0 != m[j].0
    &&& forall|i: int, j: int| 0 <= i < j < m.len() ==> m[i].1@ != m[j].1@
}

/// FIDs are dense: entry `i` holds FID `i + 1`. This is how the table looks
/// while the interceptor is building it; pruning may break density but keeps
/// `table_wf`.
pub open spec fn table_dense(m: Seq<(u64, Vec<u8>)>) -> bool {
    forall|i: int| 0 <= i < m.len() ==> (#[trigger] m[i]).0 == i + 1
}

impl StateDiffLog {
    /// Every FID referenced by an action exists in the FID table.
    pub open spec fn actions_covered(&self) -> bool {
        forall|i: int, k: int|
            0 <= i < self.actions@.len() && 0 <= k < self.actions@[i].fids().len()
                ==> table_has_fid(self.fid_map@, #[trigger] self.actions@[i].fids()[k])
    }

    /// Well-formedness of any log value: distinct keys and paths, and every
    /// action's FIDs resolved by the table.
    pub open spec fn wf(&self) -> bool {
        &&& table_wf(self.fid_map@)
        &&& self.actions_covered()
    }

    /// The stronger invariant that holds while the interceptor builds the log
    /// within one epoch: the FID table is dense (FIDs allocated 1, 2, ... in
    /// order) on top of `wf`.
    pub open spec fn building(&self) -> bool {
        &&& table_dense(self.fid_map@)
        &&& self.wf()
    }

    pub open spec fn is_empty_spec(&self) -> bool {
        self.fid_map@.len() == 0 && self.actions@.len() == 0
    }

    /// The model this log denotes.
    pub open spec fn model(&self) -> LogModel {
        LogModel {
            fid_map: self.fid_map@.map_values(|e: (u64, Vec<u8>)| (e.0, e.1@)),
            actions: self.actions@.map_values(|a: StateDiffAction| a.model()),
        }
    }

    /// A fresh, empty log.
    pub fn new() -> (r: Self)
        ensures
            r.is_empty_spec(),
            r.building(),
    {
        StateDiffLog { fid_map: Vec::new(), actions: Vec::new() }
    }
}

/// A dense table has distinct keys, so density plus distinct paths gives
/// `table_wf`.
pub proof fn lemma_dense_implies_distinct_keys(m: Seq<(u64, Vec<u8>)>)
    requires
        table_dense(m),
    ensures
        forall|i: int, j: int| 0 <= i < j < m.len() ==> m[i].0 != m[j].0,
{
}

/// Two byte vectors hold the same bytes.
pub fn bytes_eq(a: &Vec<u8>, b: &Vec<u8>) -> (r: bool)
    ensures
        r <==> a@ == b@,
{
    if a.len() != b.len() {
        assert(a@ != b@);
        return false;
    }
    let n = a.len();
    let mut i: usize = 0;
    while i < n
        invariant
            n == a.len() == b.len(),
            0 <= i <= n,
            forall|k: int| 0 <= k < i ==> a@[k] == b@[k],
        decreases n - i,
    {
        if a[i] != b[i] {
            assert(a@ != b@);
            return false;
        }
        i += 1;
    }
    assert(a@ =~= b@);
    true
}

/// Look up or intern `path` in the log's FID table.
///
/// If `path` already has a FID (reverse lookup by value), that FID is
/// returned and the log is unchanged. Otherwise the next dense FID
/// `len + 1` is allocated, bound to `path`, and returned. FIDs are stable
/// within an epoch and restart at 1 after a clear.
pub fn get_fid(log: &mut StateDiffLog, path: &Vec<u8>) -> (r: u64)
    requires
        table_dense(old(log).fid_map@),
        forall|i: int, j: int|
            0 <= i < j < old(log).fid_map@.len() ==> old(log).fid_map@[i].1@ != old(log).fid_map@[j].1@,
        old(log).fid_map@.len() < u64::MAX,
    ensures
        final(log).actions == old(log).actions,
        table_dense(final(log).fid_map@),
        forall|i: int, j: int|
            0 <= i < j < final(log).fid_map@.len() ==> final(log).fid_map@[i].1@ != final(log).fid_map@[j].1@,
        table_has_path(old(log).fid_map@, path@) ==> {
            &&& final(log).fid_map == old(log).fid_map
            &&& r == table_fid_of(old(log).fid_map@, path@)
        },
        !table_has_path(old(log).fid_map@, path@) ==> {
            &&& final(log).fid_map@.len() == old(log).fid_map@.len() + 1
            &&& final(log).fid_map@.subrange(0, old(log).fid_map@.len() as int) == old(log).fid_map@
            &&& final(log).fid_map@.last().0 == r
            &&& final(log).fid_map@.last().1@ == path@
            &&& r == old(log).fid_map@.len() + 1
        },
        table_has_fid(final(log).fid_map@, r),
        table_path_of(final(log).fid_map@, r) == path@,
        table_has_path(final(log).fid_map@, path@),
        table_fid_of(final(log).fid_map@, path@) == r,
{
    proof {
        lemma_dense_implies_distinct_keys(log.fid_map@);
    }
    let n = log.fid_map.len();
    let mut i: usize = 0;
    while i < n
        invariant
            *log == *old(log),
            n == log.fid_map@.len(),
            0 <= i <= n,
            table_dense(log.fid_map@),
            forall|a: int, b: int|
                0 <= a < b < log.fid_map@.len() ==> log.fid_map@[a].0 != log.fid_map@[b].0,
            forall|a: int, b: int|
                0 <= a < b < log.fid_map@.len() ==> log.fid_map@[a].1@ != log.fid_map@[b].1@,
            forall|k: int| 0 <= k < i ==> log.fid_map@[k].1@ != path@,
        decreases n - i,
    {
        if bytes_eq(&log.fid_map[i].1, path) {
            let r = log.fid_map[i].0;
            proof {
                let m = log.fid_map@;
                assert(table_has_path(m, path@));
                let wit = choose|j: int| 0 <= j < m.len() && m[j].1@ == path@;
                if wit < i {
                    assert(m[wit].1@ != m[i as int].1@);
                } else if wit > i {
                    assert(m[i as int].1@ != m[wit].1@);
                }
                assert(wit == i);
                assert(table_has_fid(m, r));
                let wit2 = choose|j: int| 0 <= j < m.len() && m[j].0 == r;
                assert(m[i as int].0 == r);
                if wit2 < i {
                    assert(m[wit2].0 != m[i as int].0);
                } else if wit2 > i {
                    assert(m[i as int].0 != m[wit2].0);
                }
                assert(wit2 == i);
            }
            return r;
        }
        i += 1;
    }
    assert(!table_has_path(log.fid_map@, path@));
    let new_fid: u64 = (n as u64) + 1;
    let entry_path = clone_bytes(path);
    log.fid_map.push((new_fid, entry_path));
    proof {
        let m = log.fid_map@;
        assert(m.subrange(0, n as int) =~= old(log).fid_map@);
        assert(m[n as int].0 == new_fid);
        assert(forall|i: int, j: int| 0 <= i < j < m.len() ==> m[i].1@ != m[j].1@);
        lemma_dense_implies_distinct_keys(m);
        let wit = choose|j: int| 0 <= j < m.len() && m[j].0 == new_fid;
        assert(wit == n);
        let wit2 = choose|j: int| 0 <= j < m.len() && m[j].1@ == path@;
        assert(m[n as int].1@ == path@);
        assert(wit2 == n);
    }
    new_fid
}

/// Copy a byte vector.
pub fn clone_bytes(src: &Vec<u8>) -> (r: Vec<u8>)
    ensures
        r@ == src@,
{
    let mut r: Vec<u8> = Vec::new();
    let n = src.len();
    let mut i: usize = 0;
    while i < n
        invariant
            n == src@.len(),
            0 <= i <= n,
            r@ == src@.subrange(0, i as int),
        decreases n - i,
    {
        r.push(src[i]);
        assert(r@ =~= src@.subrange(0, i + 1));
        i += 1;
    }
    assert(r@ =~= src@);
    r
}

} // verus!
