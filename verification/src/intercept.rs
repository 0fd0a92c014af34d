use vstd::prelude::*;

use crate::inode::{dir_has_ino, dir_has_path, dir_ino_of, root_path, InodeManager};
use crate::statediff::{
    clone_bytes, get_fid, table_fid_of, table_has_fid, table_has_path, ActionModel,
    StateDiffAction, StateDiffLog,
};

verus! {

// ============================================================
// Relative-path arithmetic on byte strings.
// ============================================================
/// The path of `name` inside `parent`: `name` itself under the root,
/// otherwise `parent`, a slash, `name`.
pub open spec fn join_spec(parent: Seq<u8>, name: Seq<u8>) -> Seq<u8> {
    if parent == root_path() {
        name
    } else {
        parent + seq![47u8] + name
    }
}

/// Join a child name onto a directory path.
pub fn join_path(parent: &Vec<u8>, name: &Vec<u8>) -> (r: Vec<u8>)
    ensures
        r@ == join_spec(parent@, name@),
{
    if parent.len() == 1 && parent[0] == 46u8 {
        assert(parent@ =~= root_path());
        return clone_bytes(name);
    }
    assert(parent@ != root_path());
    let mut r = clone_bytes(parent);
    r.push(47u8);
    let mut i: usize = 0;
    let n = name.len();
    while i < n
        invariant
            n == name@.len(),
            0 <= i <= n,
            r@ == parent@ + seq![47u8] + name@.subrange(0, i as int),
        decreases n - i,
    {
        r.push(name[i]);
        assert(r@ =~= parent@ + seq![47u8] + name@.subrange(0, i + 1));
        i += 1;
    }
    assert(name@.subrange(0, n as int) =~= name@);
    r
}

/// Position of the last slash in `p`, or a negative value if none.
pub open spec fn last_slash(p: Seq<u8>) -> int
    decreases p.len(),
{
    if p.len() == 0 {
        -1
    } else if p[p.len() - 1] == 47 {
        p.len() - 1
    } else {
        last_slash(p.drop_last())
    }
}

/// The directory containing `p`: up to the last slash, or the root.
pub open spec fn parent_spec(p: Seq<u8>) -> Seq<u8> {
    if last_slash(p) < 0 {
        root_path()
    } else {
        p.subrange(0, last_slash(p))
    }
}

/// The path of the directory containing `path`.
pub fn parent_dir(path: &Vec<u8>) -> (r: Vec<u8>)
    ensures
        r@ == parent_spec(path@),
{
    let mut j = path.len();
    assert(path@.subrange(0, path@.len() as int) =~= path@);
    while j > 0
        invariant
            0 <= j <= path@.len(),
            last_slash(path@) == last_slash(path@.subrange(0, j as int)),
        decreases j,
    {
        if path[j - 1] == 47u8 {
            proof {
                let pre = path@.subrange(0, j as int);
                assert(pre[pre.len() - 1] == 47);
                assert(last_slash(pre) == j - 1);
            }
            let mut r: Vec<u8> = Vec::new();
            let mut i: usize = 0;
            while i < j - 1
                invariant
                    0 <= i <= j - 1,
                    j - 1 < path@.len() + 1,
                    j >= 1,
                    path@.len() >= j - 1,
                    r@ == path@.subrange(0, i as int),
                decreases j - 1 - i,
            {
                r.push(path[i]);
                assert(r@ =~= path@.subrange(0, i + 1));
                i += 1;
            }
            return r;
        }
        proof {
            let pre = path@.subrange(0, j as int);
            assert(pre[pre.len() - 1] != 47);
            assert(pre.drop_last() =~= path@.subrange(0, j - 1));
            assert(last_slash(pre) == last_slash(path@.subrange(0, j - 1)));
        }
        j -= 1;
    }
    proof {
        assert(path@.subrange(0, 0) =~= Seq::<u8>::empty());
        assert(last_slash(path@) == -1);
    }
    let mut r: Vec<u8> = Vec::new();
    r.push(46u8);
    assert(r@ =~= root_path());
    r
}

// ============================================================
// The filesystem driver's verified state: the inode directory and the
// bookkeeping each mutation commits to the shared log once its backing
// syscall has succeeded.
// ============================================================
/// The mutation-logging filesystem. The caller performs the backing
/// syscalls; each `commit_*` operation is invoked only after the
/// corresponding syscall succeeded, and appends exactly that mutation's
/// actions at the tail of the log. Failed syscalls commit nothing.
pub struct FuseLogFS {
    pub inodes: InodeManager,
}

impl FuseLogFS {
    pub fn new() -> (r: Self)
        ensures
            r.inodes.wf(),
            r.inodes.entries@.len() == 1,
            r.inodes.next_ino == 2,
    {
        FuseLogFS { inodes: InodeManager::new() }
    }

    /// Strip a leading `./` left by joining under the root mount path.
    pub fn get_relative_path(&self, full_path: &Vec<u8>) -> (r: Vec<u8>)
        ensures
            r@ == strip_dot_slash(full_path@),
    {
        if full_path.len() >= 2 && full_path[0] == 46u8 && full_path[1] == 47u8 {
            let mut r: Vec<u8> = Vec::new();
            let mut i: usize = 2;
            let n = full_path.len();
            while i < n
                invariant
                    2 <= i <= n,
                    n == full_path@.len(),
                    r@ == full_path@.subrange(2, i as int),
                decreases n - i,
            {
                r.push(full_path[i]);
                assert(r@ =~= full_path@.subrange(2, i + 1));
                i += 1;
            }
            r
        } else {
            clone_bytes(full_path)
        }
    }
}

/// The inode the synthetic `..` entry of a directory names: 1 at the
/// root, else the parent directory's binding, else 1 when the parent was
/// never interned.
pub open spec fn parent_ino_spec(m: Seq<(u64, Vec<u8>)>, dp: Seq<u8>) -> u64 {
    if dp == root_path() {
        1
    } else if dir_has_path(m, parent_spec(dp)) {
        dir_ino_of(m, parent_spec(dp))
    } else {
        1
    }
}

impl FuseLogFS {
    /// Assemble the kernel's view of a directory listing: the synthetic
    /// `.` and `..` entries first (`..` naming the parent's inode, or 1 at
    /// the root), then every child interned to its inode in order, with
    /// the first `offset` assembled entries skipped. Each entry carries
    /// (inode, is-directory, name). `None` when `ino` is unknown.
    #[verifier::spinoff_prover]
    #[verifier::rlimit(100)]
    pub fn readdir_entries(
        &mut self,
        ino: u64,
        children: &Vec<(Vec<u8>, bool)>,
        offset: usize,
    ) -> (r: Option<Vec<(u64, bool, Vec<u8>)>>)
        requires
            old(self).inodes.wf(),
            old(self).inodes.next_ino + children@.len() < u64::MAX,
        ensures
            final(self).inodes.wf(),
            r is Some <==> dir_has_ino(old(self).inodes.entries@, ino),
            r is None ==> *final(self) == *old(self),
            r matches Some(e) ==> {
                let dp = crate::inode::dir_first_path_of(old(self).inodes.entries@, ino);
                let total = 2 + children@.len() as int;
                let skipped = if offset <= total {
                    offset as int
                } else {
                    total
                };
                &&& e@.len() == total - skipped
                &&& forall|t: int|
                    #![trigger e@[t - skipped]]
                    skipped <= t < total ==> if t == 0 {
                        e@[t - skipped].0 == ino && e@[t - skipped].1 == true && e@[t
                            - skipped].2@ == root_path()
                    } else if t == 1 {
                        e@[t - skipped].0 == parent_ino_spec(old(self).inodes.entries@, dp) && e@[t
                            - skipped].1 == true && e@[t - skipped].2@ == seq![46u8, 46u8]
                    } else {
                        &&& e@[t - skipped].1 == children@[t - 2].1
                        &&& e@[t - skipped].2@ == children@[t - 2].0@
                        &&& dir_has_path(
                            final(self).inodes.entries@,
                            join_spec(dp, children@[t - 2].0@),
                        )
                        &&& e@[t - skipped].0 == dir_ino_of(
                            final(self).inodes.entries@,
                            join_spec(dp, children@[t - 2].0@),
                        )
                    }
            },
    {
        let path = match self.inodes.get_path(ino) {
            None => {
                return None;
            },
            Some(p) => p,
        };
        let ghost dp = path@;
        let parent_ino: u64 = if path.len() == 1 && path[0] == 46u8 {
            proof {
                assert(path@ =~= root_path());
            }
            1
        } else {
            assert(dp != root_path());
            let pp = parent_dir(&path);
            match self.inodes.lookup_path(&pp) {
                Some(pi) => pi,
                None => 1,
            }
        };
        let mut all: Vec<(u64, bool, Vec<u8>)> = Vec::new();
        let mut dot: Vec<u8> = Vec::new();
        dot.push(46u8);
        assert(dot@ =~= root_path());
        all.push((ino, true, dot));
        let mut dotdot: Vec<u8> = Vec::new();
        dotdot.push(46u8);
        dotdot.push(46u8);
        assert(dotdot@ =~= seq![46u8, 46u8]);
        all.push((parent_ino, true, dotdot));
        let n = children.len();
        let mut k: usize = 0;
        while k < n
            invariant
                n == children@.len(),
                dp == path@,
                self.inodes.wf(),
                0 <= k <= n,
                self.inodes.next_ino <= old(self).inodes.next_ino + k,
                old(self).inodes.next_ino + n < u64::MAX,
                self.inodes.entries@.len() >= old(self).inodes.entries@.len(),
                self.inodes.entries@.subrange(0, old(self).inodes.entries@.len() as int) == old(
                    self,
                ).inodes.entries@,
                all@.len() == 2 + k,
                all@[0].0 == ino && all@[0].1 == true && all@[0].2@ == root_path(),
                all@[1].0 == parent_ino && all@[1].1 == true && all@[1].2@ == seq![46u8, 46u8],
                forall|t: int|
                    #![trigger all@[t + 2]]
                    0 <= t < k ==> {
                        &&& all@[t + 2].1 == children@[t].1
                        &&& all@[t + 2].2@ == children@[t].0@
                        &&& dir_has_path(self.inodes.entries@, join_spec(dp, children@[t].0@))
                        &&& all@[t + 2].0 == dir_ino_of(
                            self.inodes.entries@,
                            join_spec(dp, children@[t].0@),
                        )
                    },
            decreases n - k,
        {
            let ghost before = self.inodes.entries@;
            let ghost allb = all@;
            let cpath = join_path(&path, &children[k].0);
            let cino = self.inodes.get_or_create_ino(&cpath);
            proof {
                if dir_has_path(before, cpath@) {
                    assert(self.inodes.entries@.subrange(0, before.len() as int) =~= before);
                }
                crate::inode::lemma_append_preserves_bindings(before, self.inodes.entries@);
                assert(self.inodes.entries@.subrange(0, old(self).inodes.entries@.len() as int)
                    =~= old(self).inodes.entries@);
            }
            all.push((cino, children[k].1, clone_bytes(&children[k].0)));
            proof {
                let now = self.inodes.entries@;
                assert(all@ == allb.push((cino, children@[k as int].1, all@[allb.len() as int].2)));
                assert(all@[k as int + 2].0 == cino);
                assert(all@[k as int + 2].1 == children@[k as int].1);
                assert(all@[k as int + 2].2@ == children@[k as int].0@);
                assert(dir_has_path(now, join_spec(dp, children@[k as int].0@)));
                assert(dir_ino_of(now, join_spec(dp, children@[k as int].0@)) == cino);
                assert forall|t: int| 0 <= t < k + 1 implies {
                    &&& (#[trigger] all@[t + 2]).1 == children@[t].1
                    &&& all@[t + 2].2@ == children@[t].0@
                    &&& dir_has_path(now, join_spec(dp, children@[t].0@))
                    &&& all@[t + 2].0 == dir_ino_of(now, join_spec(dp, children@[t].0@))
                } by {
                    if t < k {
                        assert(all@[t + 2] == allb[t + 2]);
                        assert(dir_has_path(before, join_spec(dp, children@[t].0@)));
                        assert(dir_ino_of(now, join_spec(dp, children@[t].0@)) == dir_ino_of(
                            before,
                            join_spec(dp, children@[t].0@),
                        ));
                    }
                }
            }
            k += 1;
        }
        let total = all.len();
        let start: usize = if offset <= total {
            offset
        } else {
            total
        };
        let mut res: Vec<(u64, bool, Vec<u8>)> = Vec::new();
        let mut t: usize = start;
        while t < total
            invariant
                total == all@.len(),
                start <= t <= total,
                res@.len() == t - start,
                forall|u: int|
                    #![trigger res@[u]]
                    0 <= u < res@.len() ==> {
                        &&& res@[u].0 == all@[start + u].0
                        &&& res@[u].1 == all@[start + u].1
                        &&& res@[u].2@ == all@[start + u].2@
                    },
            decreases total - t,
        {
            let name = clone_bytes(&all[t].2);
            res.push((all[t].0, all[t].1, name));
            t += 1;
        }
        proof {
            let total_i: int = 2 + children@.len() as int;
            let skipped: int = if offset <= total_i {
                offset as int
            } else {
                total_i
            };
            assert(start as int == skipped);
            assert(res@.len() == total_i - skipped);
            assert forall|t2: int|
                #![trigger res@[t2 - skipped]]
                skipped <= t2 < total_i implies if t2 == 0 {
                res@[t2 - skipped].0 == ino && res@[t2 - skipped].1 == true && res@[t2
                    - skipped].2@ == root_path()
            } else if t2 == 1 {
                res@[t2 - skipped].0 == parent_ino_spec(old(self).inodes.entries@, dp) && res@[t2
                    - skipped].1 == true && res@[t2 - skipped].2@ == seq![46u8, 46u8]
            } else {
                &&& res@[t2 - skipped].1 == children@[t2 - 2].1
                &&& res@[t2 - skipped].2@ == children@[t2 - 2].0@
                &&& dir_has_path(self.inodes.entries@, join_spec(dp, children@[t2 - 2].0@))
                &&& res@[t2 - skipped].0 == dir_ino_of(
                    self.inodes.entries@,
                    join_spec(dp, children@[t2 - 2].0@),
                )
            } by {
                assert(res@[t2 - skipped].0 == all@[t2].0);
                assert(res@[t2 - skipped].1 == all@[t2].1);
                assert(res@[t2 - skipped].2@ == all@[t2].2@);
                if t2 >= 2 {
                    assert(all@[(t2 - 2) + 2].1 == children@[t2 - 2].1);
                }
            }
        }
        Some(res)
    }
}

/// `p` with a leading `./` removed.
pub open spec fn strip_dot_slash(p: Seq<u8>) -> Seq<u8> {
    if p.len() >= 2 && p[0] == 46 && p[1] == 47 {
        p.subrange(2, p.len() as int)
    } else {
        p
    }
}

// ============================================================
// Committing successful mutations to the log.
// ============================================================
/// A FID table that has grown at the end still resolves every old FID.
pub proof fn lemma_table_grows(m0: Seq<(u64, Vec<u8>)>, m1: Seq<(u64, Vec<u8>)>)
    requires
        m1.len() >= m0.len(),
        m1.subrange(0, m0.len() as int) == m0,
    ensures
        forall|f: u64| table_has_fid(m0, f) ==> table_has_fid(m1, f),
{
    assert forall|f: u64| table_has_fid(m0, f) implies table_has_fid(m1, f) by {
        let w = choose|w: int| 0 <= w < m0.len() && m0[w].0 == f;
        assert(m1.subrange(0, m0.len() as int)[w] == m1[w]);
        assert(m1[w].0 == f);
    }
}

/// Append one action whose FIDs the table already resolves.
fn append_action(log: &mut StateDiffLog, a: StateDiffAction)
    requires
        old(log).building(),
        forall|k: int|
            0 <= k < a.fids().len() ==> table_has_fid(old(log).fid_map@, #[trigger] a.fids()[k]),
    ensures
        final(log).building(),
        final(log).fid_map == old(log).fid_map,
        final(log).actions@ == old(log).actions@.push(a),
{
    log.actions.push(a);
    proof {
        assert forall|i: int, k: int|
            0 <= i < log.actions@.len() && 0 <= k < log.actions@[i].fids().len()
                implies table_has_fid(log.fid_map@, #[trigger] log.actions@[i].fids()[k]) by {
            if i < old(log).actions@.len() {
                assert(log.actions@[i] == old(log).actions@[i]);
            } else {
                assert(log.actions@[i] == a);
            }
        }
    }
}

/// An interning step preserves coverage of the existing actions.
proof fn lemma_covered_after_intern(l0: StateDiffLog, l1: StateDiffLog)
    requires
        l0.actions_covered(),
        l1.actions == l0.actions,
        l1.fid_map@.len() >= l0.fid_map@.len(),
        l1.fid_map@.subrange(0, l0.fid_map@.len() as int) == l0.fid_map@,
    ensures
        l1.actions_covered(),
{
    lemma_table_grows(l0.fid_map@, l1.fid_map@);
}

/// The interning half of every commit: look up or allocate the FID of
/// `path`, preserving the building invariant and coverage.
fn intern_path(log: &mut StateDiffLog, path: &Vec<u8>) -> (r: u64)
    requires
        old(log).building(),
        old(log).fid_map@.len() < u64::MAX,
    ensures
        final(log).building(),
        final(log).actions == old(log).actions,
        final(log).fid_map@.len() >= old(log).fid_map@.len(),
        final(log).fid_map@.subrange(0, old(log).fid_map@.len() as int) == old(log).fid_map@,
        table_has_path(final(log).fid_map@, path@),
        table_has_fid(final(log).fid_map@, r),
        r == table_fid_of(final(log).fid_map@, path@),
        crate::statediff::table_path_of(final(log).fid_map@, r) == path@,
        table_has_path(old(log).fid_map@, path@) ==> final(log).fid_map == old(log).fid_map,
        final(log).fid_map@.len() <= old(log).fid_map@.len() + 1,
{
    let ghost l0 = *log;
    let r = get_fid(log, path);
    proof {
        if table_has_path(l0.fid_map@, path@) {
            assert(log.fid_map@.subrange(0, l0.fid_map@.len() as int) =~= l0.fid_map@);
        }
        crate::statediff::lemma_dense_implies_distinct_keys(log.fid_map@);
        lemma_covered_after_intern(l0, *log);
    }
    r
}

/// Record a successful directory creation: `Mkdir` then `Chown` with the
/// requester's credentials, in that order, atomically at the log's tail.
pub fn commit_mkdir(log: &mut StateDiffLog, dir_path: &Vec<u8>, uid: u32, gid: u32)
    requires
        old(log).building(),
        old(log).fid_map@.len() < u64::MAX,
    ensures
        final(log).building(),
        final(log).fid_map@.len() <= old(log).fid_map@.len() + 1,
        final(log).fid_map@.subrange(0, old(log).fid_map@.len() as int) == old(log).fid_map@,
        table_has_path(final(log).fid_map@, dir_path@),
        final(log).actions@.len() == old(log).actions@.len() + 2,
        final(log).actions@.subrange(0, old(log).actions@.len() as int) == old(log).actions@,
        final(log).actions@[final(log).actions@.len() - 2].model() == (ActionModel::Mkdir {
            fid: table_fid_of(final(log).fid_map@, dir_path@),
        }),
        final(log).actions@[final(log).actions@.len() - 1].model() == (ActionModel::Chown {
            fid: table_fid_of(final(log).fid_map@, dir_path@),
            uid,
            gid,
        }),
{
    let fid = intern_path(log, dir_path);
    append_action(log, StateDiffAction::Mkdir { fid });
    append_action(log, StateDiffAction::Chown { fid, uid, gid });
    assert(final(log).actions@.subrange(0, old(log).actions@.len() as int) =~= old(log).actions@);
}

/// Record a successful directory removal.
pub fn commit_rmdir(log: &mut StateDiffLog, dir_path: &Vec<u8>)
    requires
        old(log).building(),
        old(log).fid_map@.len() < u64::MAX,
    ensures
        final(log).building(),
        final(log).fid_map@.len() <= old(log).fid_map@.len() + 1,
        final(log).fid_map@.subrange(0, old(log).fid_map@.len() as int) == old(log).fid_map@,
        table_has_path(final(log).fid_map@, dir_path@),
        final(log).actions@.len() == old(log).actions@.len() + 1,
        final(log).actions@.subrange(0, old(log).actions@.len() as int) == old(log).actions@,
        final(log).actions@.last().model() == (ActionModel::Rmdir {
            fid: table_fid_of(final(log).fid_map@, dir_path@),
        }),
{
    let fid = intern_path(log, dir_path);
    append_action(log, StateDiffAction::Rmdir { fid });
    assert(final(log).actions@.subrange(0, old(log).actions@.len() as int) =~= old(log).actions@);
}

/// Record a successful file creation. The interceptor records the
/// requester's ownership; the file's content follows through `Write`
/// actions.
pub fn commit_create(log: &mut StateDiffLog, file_path: &Vec<u8>, uid: u32, gid: u32)
    requires
        old(log).building(),
        old(log).fid_map@.len() < u64::MAX,
    ensures
        final(log).building(),
        final(log).fid_map@.len() <= old(log).fid_map@.len() + 1,
        final(log).fid_map@.subrange(0, old(log).fid_map@.len() as int) == old(log).fid_map@,
        table_has_path(final(log).fid_map@, file_path@),
        final(log).actions@.len() == old(log).actions@.len() + 1,
        final(log).actions@.subrange(0, old(log).actions@.len() as int) == old(log).actions@,
        final(log).actions@.last().model() == (ActionModel::Chown {
            fid: table_fid_of(final(log).fid_map@, file_path@),
            uid,
            gid,
        }),
{
    let fid = intern_path(log, file_path);
    append_action(log, StateDiffAction::Chown { fid, uid, gid });
    assert(final(log).actions@.subrange(0, old(log).actions@.len() as int) =~= old(log).actions@);
}

/// Record a successful write of the complete slice at its offset.
pub fn commit_write(log: &mut StateDiffLog, file_path: &Vec<u8>, offset: u64, data: &Vec<u8>)
    requires
        old(log).building(),
        old(log).fid_map@.len() < u64::MAX,
    ensures
        final(log).building(),
        final(log).fid_map@.len() <= old(log).fid_map@.len() + 1,
        final(log).fid_map@.subrange(0, old(log).fid_map@.len() as int) == old(log).fid_map@,
        table_has_path(final(log).fid_map@, file_path@),
        final(log).actions@.len() == old(log).actions@.len() + 1,
        final(log).actions@.subrange(0, old(log).actions@.len() as int) == old(log).actions@,
        final(log).actions@.last().model() == (ActionModel::Write {
            fid: table_fid_of(final(log).fid_map@, file_path@),
            offset,
            data: data@,
        }),
{
    let fid = intern_path(log, file_path);
    let d = clone_bytes(data);
    append_action(log, StateDiffAction::Write { fid, offset, data: d });
    assert(final(log).actions@.subrange(0, old(log).actions@.len() as int) =~= old(log).actions@);
}

/// Record a successful file removal.
pub fn commit_unlink(log: &mut StateDiffLog, file_path: &Vec<u8>)
    requires
        old(log).building(),
        old(log).fid_map@.len() < u64::MAX,
    ensures
        final(log).building(),
        final(log).fid_map@.len() <= old(log).fid_map@.len() + 1,
        final(log).fid_map@.subrange(0, old(log).fid_map@.len() as int) == old(log).fid_map@,
        table_has_path(final(log).fid_map@, file_path@),
        final(log).actions@.len() == old(log).actions@.len() + 1,
        final(log).actions@.subrange(0, old(log).actions@.len() as int) == old(log).actions@,
        final(log).actions@.last().model() == (ActionModel::Unlink {
            fid: table_fid_of(final(log).fid_map@, file_path@),
        }),
{
    let fid = intern_path(log, file_path);
    append_action(log, StateDiffAction::Unlink { fid });
    assert(final(log).actions@.subrange(0, old(log).actions@.len() as int) =~= old(log).actions@);
}

/// Record a successful explicit length change.
pub fn commit_truncate(log: &mut StateDiffLog, file_path: &Vec<u8>, size: u64)
    requires
        old(log).building(),
        old(log).fid_map@.len() < u64::MAX,
    ensures
        final(log).building(),
        final(log).fid_map@.len() <= old(log).fid_map@.len() + 1,
        final(log).fid_map@.subrange(0, old(log).fid_map@.len() as int) == old(log).fid_map@,
        table_has_path(final(log).fid_map@, file_path@),
        final(log).actions@.len() == old(log).actions@.len() + 1,
        final(log).actions@.subrange(0, old(log).actions@.len() as int) == old(log).actions@,
        final(log).actions@.last().model() == (ActionModel::Truncate {
            fid: table_fid_of(final(log).fid_map@, file_path@),
            size,
        }),
{
    let fid = intern_path(log, file_path);
    append_action(log, StateDiffAction::Truncate { fid, size });
    assert(final(log).actions@.subrange(0, old(log).actions@.len() as int) =~= old(log).actions@);
}

/// Record a successful permission change.
pub fn commit_chmod(log: &mut StateDiffLog, file_path: &Vec<u8>, mode: u32)
    requires
        old(log).building(),
        old(log).fid_map@.len() < u64::MAX,
    ensures
        final(log).building(),
        final(log).fid_map@.len() <= old(log).fid_map@.len() + 1,
        final(log).fid_map@.subrange(0, old(log).fid_map@.len() as int) == old(log).fid_map@,
        table_has_path(final(log).fid_map@, file_path@),
        final(log).actions@.len() == old(log).actions@.len() + 1,
        final(log).actions@.subrange(0, old(log).actions@.len() as int) == old(log).actions@,
        final(log).actions@.last().model() == (ActionModel::Chmod {
            fid: table_fid_of(final(log).fid_map@, file_path@),
            mode,
        }),
{
    let fid = intern_path(log, file_path);
    append_action(log, StateDiffAction::Chmod { fid, mode });
    assert(final(log).actions@.subrange(0, old(log).actions@.len() as int) =~= old(log).actions@);
}

/// Record a successful ownership change.
pub fn commit_chown(log: &mut StateDiffLog, file_path: &Vec<u8>, uid: u32, gid: u32)
    requires
        old(log).building(),
        old(log).fid_map@.len() < u64::MAX,
    ensures
        final(log).building(),
        final(log).fid_map@.len() <= old(log).fid_map@.len() + 1,
        final(log).fid_map@.subrange(0, old(log).fid_map@.len() as int) == old(log).fid_map@,
        table_has_path(final(log).fid_map@, file_path@),
        final(log).actions@.len() == old(log).actions@.len() + 1,
        final(log).actions@.subrange(0, old(log).actions@.len() as int) == old(log).actions@,
        final(log).actions@.last().model() == (ActionModel::Chown {
            fid: table_fid_of(final(log).fid_map@, file_path@),
            uid,
            gid,
        }),
{
    let fid = intern_path(log, file_path);
    append_action(log, StateDiffAction::Chown { fid, uid, gid });
    assert(final(log).actions@.subrange(0, old(log).actions@.len() as int) =~= old(log).actions@);
}

/// Record a successful rename. The source keeps its FID; the destination
/// path is interned as a new FID, and both are referenced by the action.
pub fn commit_rename(log: &mut StateDiffLog, from_path: &Vec<u8>, to_path: &Vec<u8>)
    requires
        old(log).building(),
        old(log).fid_map@.len() + 1 < u64::MAX,
    ensures
        final(log).building(),
        final(log).fid_map@.len() <= old(log).fid_map@.len() + 2,
        final(log).fid_map@.subrange(0, old(log).fid_map@.len() as int) == old(log).fid_map@,
        table_has_path(final(log).fid_map@, from_path@),
        table_has_path(final(log).fid_map@, to_path@),
        table_has_path(old(log).fid_map@, from_path@) ==> table_fid_of(
            final(log).fid_map@,
            from_path@,
        ) == table_fid_of(old(log).fid_map@, from_path@),
        !table_has_path(old(log).fid_map@, to_path@) && to_path@ != from_path@
            ==> !table_has_fid(
            old(log).fid_map@,
            table_fid_of(final(log).fid_map@, to_path@),
        ),
        final(log).actions@.len() == old(log).actions@.len() + 1,
        final(log).actions@.subrange(0, old(log).actions@.len() as int) == old(log).actions@,
        final(log).actions@.last().model() == (ActionModel::Rename {
            from_fid: table_fid_of(final(log).fid_map@, from_path@),
            to_fid: table_fid_of(final(log).fid_map@, to_path@),
        }),
{
    let from_fid = intern_path(log, from_path);
    let ghost l1 = *log;
    let to_fid = intern_path(log, to_path);
    proof {
        crate::statediff::lemma_dense_implies_distinct_keys(log.fid_map@);
        let w = choose|w: int| 0 <= w < l1.fid_map@.len() && l1.fid_map@[w].1@ == from_path@;
        assert(log.fid_map@.subrange(0, l1.fid_map@.len() as int)[w] == log.fid_map@[w]);
        assert(log.fid_map@[w].1@ == from_path@);
        assert(table_has_path(log.fid_map@, from_path@));
        let w2 = choose|w2: int| 0 <= w2 < log.fid_map@.len() && log.fid_map@[w2].1@ == from_path@;
        if w2 < w {
            assert(log.fid_map@[w2].1@ != log.fid_map@[w].1@);
        } else if w < w2 {
            assert(log.fid_map@[w].1@ != log.fid_map@[w2].1@);
        }
        assert(w2 == w);
        assert(l1.fid_map@[w].0 == log.fid_map@[w].0);
        assert(table_fid_of(log.fid_map@, from_path@) == table_fid_of(l1.fid_map@, from_path@))
            by {
            let a = choose|a: int| 0 <= a < l1.fid_map@.len() && l1.fid_map@[a].1@ == from_path@;
            if a < w {
                assert(l1.fid_map@[a].1@ != l1.fid_map@[w].1@);
            } else if w < a {
                assert(l1.fid_map@[w].1@ != l1.fid_map@[a].1@);
            }
        }
        assert(table_has_fid(log.fid_map@, from_fid));
        // The old table is a prefix of the final one.
        assert(log.fid_map@.subrange(0, old(log).fid_map@.len() as int) =~= old(log).fid_map@) by {
            let ol = old(log).fid_map@.len() as int;
            assert forall|k: int| 0 <= k < ol implies log.fid_map@[k] == old(log).fid_map@[k] by {
                assert(log.fid_map@.subrange(0, l1.fid_map@.len() as int)[k] == log.fid_map@[k]);
                assert(l1.fid_map@.subrange(0, ol)[k] == l1.fid_map@[k]);
            }
        }
        // A source path already interned keeps its FID.
        if table_has_path(old(log).fid_map@, from_path@) {
            assert(l1.fid_map == old(log).fid_map);
        }
        // A destination path not yet interned gets a FID no old entry holds.
        if !table_has_path(old(log).fid_map@, to_path@) && to_path@ != from_path@ {
            let ol = old(log).fid_map@.len() as int;
            assert(!table_has_path(l1.fid_map@, to_path@)) by {
                if table_has_path(l1.fid_map@, to_path@) {
                    let b = choose|b: int|
                        0 <= b < l1.fid_map@.len() && l1.fid_map@[b].1@ == to_path@;
                    if b < ol {
                        assert(l1.fid_map@.subrange(0, ol)[b] == l1.fid_map@[b]);
                        assert(old(log).fid_map@[b].1@ == to_path@);
                        assert(false);
                    } else {
                        assert(l1.fid_map@.len() == ol + 1);
                        assert(b == ol);
                        assert(l1.fid_map@.last().1@ == from_path@);
                        assert(false);
                    }
                }
            }
            let w3 = choose|w3: int|
                0 <= w3 < log.fid_map@.len() && log.fid_map@[w3].1@ == to_path@;
            assert(w3 >= l1.fid_map@.len()) by {
                if w3 < l1.fid_map@.len() {
                    assert(log.fid_map@.subrange(0, l1.fid_map@.len() as int)[w3]
                        == log.fid_map@[w3]);
                    assert(l1.fid_map@[w3].1@ == to_path@);
                    assert(false);
                }
            }
            assert(log.fid_map@[w3].0 == w3 + 1);
            assert(table_fid_of(log.fid_map@, to_path@) == log.fid_map@[w3].0) by {
                let a = choose|a: int|
                    0 <= a < log.fid_map@.len() && log.fid_map@[a].1@ == to_path@;
                if a < w3 {
                    assert(log.fid_map@[a].1@ != log.fid_map@[w3].1@);
                } else if w3 < a {
                    assert(log.fid_map@[w3].1@ != log.fid_map@[a].1@);
                }
            }
            if table_has_fid(old(log).fid_map@, table_fid_of(log.fid_map@, to_path@)) {
                let k = choose|k: int|
                    0 <= k < old(log).fid_map@.len() && old(log).fid_map@[k].0 == table_fid_of(
                        log.fid_map@,
                        to_path@,
                    );
                assert(old(log).fid_map@[k].0 == k + 1);
                assert(false);
            }
        }
    }
    append_action(log, StateDiffAction::Rename { from_fid, to_fid });
    assert(final(log).actions@.subrange(0, old(log).actions@.len() as int) =~= old(log).actions@);
}

/// Record a successful hard link: the source's FID plus a fresh FID for
/// the new link path.
pub fn commit_link(log: &mut StateDiffLog, source_path: &Vec<u8>, dest_path: &Vec<u8>)
    requires
        old(log).building(),
        old(log).fid_map@.len() + 1 < u64::MAX,
    ensures
        final(log).building(),
        final(log).fid_map@.len() <= old(log).fid_map@.len() + 2,
        final(log).fid_map@.subrange(0, old(log).fid_map@.len() as int) == old(log).fid_map@,
        table_has_path(final(log).fid_map@, source_path@),
        table_has_path(final(log).fid_map@, dest_path@),
        table_has_path(old(log).fid_map@, source_path@) ==> table_fid_of(
            final(log).fid_map@,
            source_path@,
        ) == table_fid_of(old(log).fid_map@, source_path@),
        !table_has_path(old(log).fid_map@, dest_path@) && dest_path@ != source_path@
            ==> !table_has_fid(
            old(log).fid_map@,
            table_fid_of(final(log).fid_map@, dest_path@),
        ),
        final(log).actions@.len() == old(log).actions@.len() + 1,
        final(log).actions@.subrange(0, old(log).actions@.len() as int) == old(log).actions@,
        final(log).actions@.last().model() == (ActionModel::Link {
            source_fid: table_fid_of(final(log).fid_map@, source_path@),
            new_link_fid: table_fid_of(final(log).fid_map@, dest_path@),
        }),
{
    let source_fid = intern_path(log, source_path);
    let ghost l1 = *log;
    let new_link_fid = intern_path(log, dest_path);
    proof {
        crate::statediff::lemma_dense_implies_distinct_keys(log.fid_map@);
        let w = choose|w: int| 0 <= w < l1.fid_map@.len() && l1.fid_map@[w].1@ == source_path@;
        assert(log.fid_map@.subrange(0, l1.fid_map@.len() as int)[w] == log.fid_map@[w]);
        assert(log.fid_map@[w].1@ == source_path@);
        assert(table_has_path(log.fid_map@, source_path@));
        let w2 = choose|w2: int|
            0 <= w2 < log.fid_map@.len() && log.fid_map@[w2].1@ == source_path@;
        if w2 < w {
            assert(log.fid_map@[w2].1@ != log.fid_map@[w].1@);
        } else if w < w2 {
            assert(log.fid_map@[w].1@ != log.fid_map@[w2].1@);
        }
        assert(w2 == w);
        assert(table_fid_of(log.fid_map@, source_path@) == table_fid_of(l1.fid_map@, source_path@))
            by {
            let a = choose|a: int| 0 <= a < l1.fid_map@.len() && l1.fid_map@[a].1@ == source_path@;
            if a < w {
                assert(l1.fid_map@[a].1@ != l1.fid_map@[w].1@);
            } else if w < a {
                assert(l1.fid_map@[w].1@ != l1.fid_map@[a].1@);
            }
        }
        assert(table_has_fid(log.fid_map@, source_fid));
        // The old table is a prefix of the final one.
        assert(log.fid_map@.subrange(0, old(log).fid_map@.len() as int) =~= old(log).fid_map@) by {
            let ol = old(log).fid_map@.len() as int;
            assert forall|k: int| 0 <= k < ol implies log.fid_map@[k] == old(log).fid_map@[k] by {
                assert(log.fid_map@.subrange(0, l1.fid_map@.len() as int)[k] == log.fid_map@[k]);
                assert(l1.fid_map@.subrange(0, ol)[k] == l1.fid_map@[k]);
            }
        }
        // A source path already interned keeps its FID.
        if table_has_path(old(log).fid_map@, source_path@) {
            assert(l1.fid_map == old(log).fid_map);
        }
        // A destination path not yet interned gets a FID no old entry holds.
        if !table_has_path(old(log).fid_map@, dest_path@) && dest_path@ != source_path@ {
            let ol = old(log).fid_map@.len() as int;
            assert(!table_has_path(l1.fid_map@, dest_path@)) by {
                if table_has_path(l1.fid_map@, dest_path@) {
                    let b = choose|b: int|
                        0 <= b < l1.fid_map@.len() && l1.fid_map@[b].1@ == dest_path@;
                    if b < ol {
                        assert(l1.fid_map@.subrange(0, ol)[b] == l1.fid_map@[b]);
                        assert(old(log).fid_map@[b].1@ == dest_path@);
                        assert(false);
                    } else {
                        assert(l1.fid_map@.len() == ol + 1);
                        assert(b == ol);
                        assert(l1.fid_map@.last().1@ == source_path@);
                        assert(false);
                    }
                }
            }
            let w3 = choose|w3: int|
                0 <= w3 < log.fid_map@.len() && log.fid_map@[w3].1@ == dest_path@;
            assert(w3 >= l1.fid_map@.len()) by {
                if w3 < l1.fid_map@.len() {
                    assert(log.fid_map@.subrange(0, l1.fid_map@.len() as int)[w3]
                        == log.fid_map@[w3]);
                    assert(l1.fid_map@[w3].1@ == dest_path@);
                    assert(false);
                }
            }
            assert(log.fid_map@[w3].0 == w3 + 1);
            assert(table_fid_of(log.fid_map@, dest_path@) == log.fid_map@[w3].0) by {
                let a = choose|a: int|
                    0 <= a < log.fid_map@.len() && log.fid_map@[a].1@ == dest_path@;
                if a < w3 {
                    assert(log.fid_map@[a].1@ != log.fid_map@[w3].1@);
                } else if w3 < a {
                    assert(log.fid_map@[w3].1@ != log.fid_map@[a].1@);
                }
            }
            if table_has_fid(old(log).fid_map@, table_fid_of(log.fid_map@, dest_path@)) {
                let k = choose|k: int|
                    0 <= k < old(log).fid_map@.len() && old(log).fid_map@[k].0 == table_fid_of(
                        log.fid_map@,
                        dest_path@,
                    );
                assert(old(log).fid_map@[k].0 == k + 1);
                assert(false);
            }
        }
    }
    append_action(log, StateDiffAction::Link { source_fid, new_link_fid });
    assert(final(log).actions@.subrange(0, old(log).actions@.len() as int) =~= old(log).actions@);
}

/// Record a successful symbolic-link creation with the link's ownership.
pub fn commit_symlink(
    log: &mut StateDiffLog,
    link_path: &Vec<u8>,
    target: &Vec<u8>,
    uid: u32,
    gid: u32,
)
    requires
        old(log).building(),
        old(log).fid_map@.len() < u64::MAX,
    ensures
        final(log).building(),
        final(log).fid_map@.len() <= old(log).fid_map@.len() + 1,
        final(log).fid_map@.subrange(0, old(log).fid_map@.len() as int) == old(log).fid_map@,
        table_has_path(final(log).fid_map@, link_path@),
        final(log).actions@.len() == old(log).actions@.len() + 1,
        final(log).actions@.subrange(0, old(log).actions@.len() as int) == old(log).actions@,
        final(log).actions@.last().model() == (ActionModel::Symlink {
            link_fid: table_fid_of(final(log).fid_map@, link_path@),
            target_path: target@,
            uid,
            gid,
        }),
{
    let fid = intern_path(log, link_path);
    let t = clone_bytes(target);
    append_action(log, StateDiffAction::Symlink { link_fid: fid, target_path: t, uid, gid });
    assert(final(log).actions@.subrange(0, old(log).actions@.len() as int) =~= old(log).actions@);
}

/// The credentials a `setattr` finally applies: each requested field, with
/// the file's current owner filling the gaps.
pub fn resolve_owner(uid: Option<u32>, gid: Option<u32>, cur_uid: u32, cur_gid: u32) -> (r: (
    u32,
    u32,
))
    ensures
        r.0 == if uid is Some {
            uid.unwrap()
        } else {
            cur_uid
        },
        r.1 == if gid is Some {
            gid.unwrap()
        } else {
            cur_gid
        },
{
    let u = match uid {
        Some(u) => u,
        None => cur_uid,
    };
    let g = match gid {
        Some(g) => g,
        None => cur_gid,
    };
    (u, g)
}


} // verus!
