use vstd::prelude::*;

use crate::statediff::{bytes_eq, clone_bytes};

verus! {

/// The relative path of the mount's root directory.
pub open spec fn root_path() -> Seq<u8> {
    seq![46u8]
}

/// The bidirectional inode <-> relative-path directory.
///
/// Entries are `(inode, path)` pairs. Paths are unique; an inode may appear
/// under several paths (hard links). Entry 0 is always the immutable binding
/// of inode 1 to the root path `.`; other inodes are allocated monotonically
/// from 2 and never reused.
pub struct InodeManager {
    pub entries: Vec<(u64, Vec<u8>)>,
    pub next_ino: u64,
}

/// `ino` is bound to some path in `m`.
pub open spec fn dir_has_ino(m: Seq<(u64, Vec<u8>)>, ino: u64) -> bool {
    exists|i: int| 0 <= i < m.len() && m[i].0 == ino
}

/// `p` is bound to some inode in `m`.
pub open spec fn dir_has_path(m: Seq<(u64, Vec<u8>)>, p: Seq<u8>) -> bool {
    exists|i: int| 0 <= i < m.len() && m[i].1@ == p
}

/// The inode bound to path `p` (meaningful when `dir_has_path` holds and
/// paths are distinct).
pub open spec fn dir_ino_of(m: Seq<(u64, Vec<u8>)>, p: Seq<u8>) -> u64 {
    let i = choose|i: int| 0 <= i < m.len() && m[i].1@ == p;
    m[i].0
}

/// The path of the earliest binding of `ino` in `m` (meaningful when
/// `dir_has_ino` holds): the path the inode was interned under.
pub open spec fn dir_first_path_of(m: Seq<(u64, Vec<u8>)>, ino: u64) -> Seq<u8> {
    let i = choose|i: int|
        0 <= i < m.len() && m[i].0 == ino && forall|j: int| 0 <= j < i ==> m[j].0 != ino;
    m[i].1@
}

/// A directory that has grown at the end still binds every old path to the
/// same inode.
pub proof fn lemma_append_preserves_bindings(o: Seq<(u64, Vec<u8>)>, m: Seq<(u64, Vec<u8>)>)
    requires
        forall|i: int, j: int| 0 <= i < j < m.len() ==> m[i].1@ != m[j].1@,
        m.len() >= o.len(),
        m.subrange(0, o.len() as int) == o,
    ensures
        forall|p: Seq<u8>|
            dir_has_path(o, p) ==> dir_has_path(m, p) && dir_ino_of(m, p) == dir_ino_of(o, p),
{
    assert forall|p: Seq<u8>| dir_has_path(o, p) implies dir_has_path(m, p) && dir_ino_of(m, p)
        == dir_ino_of(o, p) by {
        let w = choose|w: int| 0 <= w < o.len() && o[w].1@ == p;
        assert(m.subrange(0, o.len() as int)[w] == m[w]);
        assert(m[w].1@ == p);
        let a = choose|a: int| 0 <= a < m.len() && m[a].1@ == p;
        if a < w {
            assert(m[a].1@ != m[w].1@);
        } else if w < a {
            assert(m[w].1@ != m[a].1@);
        }
        assert(a == w);
        let b = choose|b: int| 0 <= b < o.len() && o[b].1@ == p;
        assert(m.subrange(0, o.len() as int)[b] == m[b]);
        if b < w {
            assert(m[b].1@ != m[w].1@);
        } else if w < b {
            assert(m[w].1@ != m[b].1@);
        }
        assert(b == w);
    }
}

impl InodeManager {
    /// Well-formedness: distinct paths, root pinned at entry 0, inode numbers
    /// below the allocation cursor, inode 1 reserved for the root.
    pub open spec fn wf(&self) -> bool {
        &&& self.entries@.len() >= 1
        &&& self.entries@[0].0 == 1
        &&& self.entries@[0].1@ == root_path()
        &&& forall|i: int, j: int|
            0 <= i < j < self.entries@.len() ==> self.entries@[i].1@ != self.entries@[j].1@
        &&& forall|i: int|
            1 <= i < self.entries@.len() ==> 2 <= (#[trigger] self.entries@[i]).0 < self.next_ino
        &&& self.next_ino >= 2
    }

    /// A fresh directory: only the root binding, next inode 2.
    pub fn new() -> (r: Self)
        ensures
            r.wf(),
            r.entries@.len() == 1,
            r.next_ino == 2,
    {
        let mut entries: Vec<(u64, Vec<u8>)> = Vec::new();
        let mut root: Vec<u8> = Vec::new();
        root.push(46u8);
        assert(root@ =~= root_path());
        entries.push((1u64, root));
        InodeManager { entries, next_ino: 2 }
    }

    /// Room is left to allocate another inode number.
    pub fn has_capacity(&self) -> (r: bool)
        ensures
            r <==> self.next_ino < u64::MAX,
    {
        self.next_ino < u64::MAX
    }

    /// Look up the path bound to `ino`: the earliest binding, which is the
    /// one made when the inode was first interned (or its rename target).
    pub fn get_path(&self, ino: u64) -> (r: Option<Vec<u8>>)
        ensures
            match r {
                Some(p) => p@ == dir_first_path_of(self.entries@, ino),
                None => !dir_has_ino(self.entries@, ino),
            },
            r is Some <==> dir_has_ino(self.entries@, ino),
    {
        let n = self.entries.len();
        let mut i: usize = 0;
        while i < n
            invariant
                n == self.entries@.len(),
                0 <= i <= n,
                forall|k: int| 0 <= k < i ==> self.entries@[k].0 != ino,
            decreases n - i,
        {
            if self.entries[i].0 == ino {
                proof {
                    let m = self.entries@;
                    assert(m[i as int].0 == ino && forall|j: int| 0 <= j < i ==> m[j].0 != ino);
                    let w = choose|w: int|
                        0 <= w < m.len() && m[w].0 == ino && forall|j: int|
                            0 <= j < w ==> m[j].0 != ino;
                    if w < i {
                        assert(m[w].0 != ino);
                    } else if i < w {
                        assert(m[i as int].0 != ino);
                    }
                    assert(w == i);
                }
                return Some(clone_bytes(&self.entries[i].1));
            }
            i += 1;
        }
        None
    }

    /// Look up the inode bound to `path` without allocating.
    pub fn lookup_path(&self, path: &Vec<u8>) -> (r: Option<u64>)
        requires
            self.wf(),
        ensures
            match r {
                Some(ino) => dir_has_path(self.entries@, path@) && ino == dir_ino_of(
                    self.entries@,
                    path@,
                ),
                None => !dir_has_path(self.entries@, path@),
            },
    {
        let n = self.entries.len();
        let mut i: usize = 0;
        while i < n
            invariant
                self.wf(),
                n == self.entries@.len(),
                0 <= i <= n,
                forall|k: int| 0 <= k < i ==> self.entries@[k].1@ != path@,
            decreases n - i,
        {
            if bytes_eq(&self.entries[i].1, path) {
                proof {
                    let m = self.entries@;
                    let wit = choose|j: int| 0 <= j < m.len() && m[j].1@ == path@;
                    if wit < i {
                        assert(m[wit].1@ != m[i as int].1@);
                    } else if wit > i {
                        assert(m[i as int].1@ != m[wit].1@);
                    }
                    assert(wit == i);
                }
                return Some(self.entries[i].0);
            }
            i += 1;
        }
        None
    }

    /// Return the inode bound to `path`, or bind `path` to a fresh inode
    /// number `next_ino` and advance the cursor.
    pub fn get_or_create_ino(&mut self, path: &Vec<u8>) -> (r: u64)
        requires
            old(self).wf(),
            old(self).next_ino < u64::MAX,
        ensures
            final(self).wf(),
            final(self).next_ino >= old(self).next_ino,
            dir_has_path(old(self).entries@, path@) ==> {
                &&& *final(self) == *old(self)
                &&& r == dir_ino_of(old(self).entries@, path@)
            },
            !dir_has_path(old(self).entries@, path@) ==> {
                &&& final(self).entries@.len() == old(self).entries@.len() + 1
                &&& final(self).entries@.subrange(0, old(self).entries@.len() as int) == old(
                    self,
                ).entries@
                &&& final(self).entries@.last().0 == r
                &&& final(self).entries@.last().1@ == path@
                &&& r == old(self).next_ino
                &&& final(self).next_ino == old(self).next_ino + 1
            },
            dir_has_path(final(self).entries@, path@),
            dir_ino_of(final(self).entries@, path@) == r,
    {
        let n = self.entries.len();
        let mut i: usize = 0;
        while i < n
            invariant
                *self == *old(self),
                old(self).wf(),
                n == self.entries@.len(),
                0 <= i <= n,
                forall|k: int| 0 <= k < i ==> self.entries@[k].1@ != path@,
            decreases n - i,
        {
            if bytes_eq(&self.entries[i].1, path) {
                proof {
                    let m = self.entries@;
                    let wit = choose|j: int| 0 <= j < m.len() && m[j].1@ == path@;
                    if wit < i {
                        assert(m[wit].1@ != m[i as int].1@);
                    } else if wit > i {
                        assert(m[i as int].1@ != m[wit].1@);
                    }
                    assert(wit == i);
                }
                return self.entries[i].0;
            }
            i += 1;
        }
        assert(!dir_has_path(self.entries@, path@));
        let ino = self.next_ino;
        let entry_path = clone_bytes(path);
        self.entries.push((ino, entry_path));
        self.next_ino = self.next_ino + 1;
        proof {
            let m = self.entries@;
            assert(m.subrange(0, n as int) =~= old(self).entries@);
            assert(m[n as int].1@ == path@);
            assert(forall|i: int, j: int| 0 <= i < j < m.len() ==> m[i].1@ != m[j].1@);
            let wit = choose|j: int| 0 <= j < m.len() && m[j].1@ == path@;
            if wit < n {
                assert(m[wit].1@ != m[n as int].1@);
            }
            assert(wit == n);
        }
        ino
    }

    /// Remove the binding of `path`, returning its inode if it was bound.
    /// The root binding is never removed.
    pub fn remove_path(&mut self, path: &Vec<u8>) -> (r: Option<u64>)
        requires
            old(self).wf(),
            path@ != root_path(),
        ensures
            final(self).wf(),
            final(self).next_ino == old(self).next_ino,
            !dir_has_path(old(self).entries@, path@) ==> {
                &&& *final(self) == *old(self)
                &&& r is None
            },
            dir_has_path(old(self).entries@, path@) ==> {
                &&& r == Some(dir_ino_of(old(self).entries@, path@))
                &&& exists|i: int|
                    0 <= i < old(self).entries@.len() && old(self).entries@[i].1@ == path@
                        && final(self).entries@ == old(self).entries@.remove(i)
            },
            !dir_has_path(final(self).entries@, path@),
    {
        let n = self.entries.len();
        let mut i: usize = 0;
        while i < n
            invariant
                *self == *old(self),
                old(self).wf(),
                path@ != root_path(),
                n == self.entries@.len(),
                0 <= i <= n,
                forall|k: int| 0 <= k < i ==> self.entries@[k].1@ != path@,
            decreases n - i,
        {
            if bytes_eq(&self.entries[i].1, path) {
                let ino = self.entries[i].0;
                proof {
                    let m = self.entries@;
                    let wit = choose|j: int| 0 <= j < m.len() && m[j].1@ == path@;
                    if wit < i {
                        assert(m[wit].1@ != m[i as int].1@);
                    } else if wit > i {
                        assert(m[i as int].1@ != m[wit].1@);
                    }
                    assert(wit == i);
                    assert(i >= 1) by {
                        assert(m[0].1@ == root_path());
                    }
                }
                self.entries.remove(i);
                proof {
                    let m = self.entries@;
                    let o = old(self).entries@;
                    assert forall|k: int| 0 <= k < m.len() implies m[k].1@ != path@ by {
                        if k < i {
                            assert(m[k] == o[k]);
                        } else {
                            assert(m[k] == o[k + 1]);
                        }
                    }
                }
                return Some(ino);
            }
            i += 1;
        }
        None
    }

    /// Move the binding of `old_path` to `new_path`, keeping the same inode,
    /// as the kernel expects across a rename. Any previous binding of
    /// `new_path` is dropped. If `old_path` is not bound, nothing changes.
    pub fn rename_path(&mut self, old_path: &Vec<u8>, new_path: &Vec<u8>)
        requires
            old(self).wf(),
            old_path@ != root_path(),
            new_path@ != root_path(),
        ensures
            final(self).wf(),
            final(self).next_ino == old(self).next_ino,
            !dir_has_path(old(self).entries@, old_path@) ==> *final(self) == *old(self),
            old_path@ == new_path@ ==> *final(self) == *old(self),
            dir_has_path(old(self).entries@, old_path@) && old_path@ != new_path@ ==> {
                &&& !dir_has_path(final(self).entries@, old_path@)
                &&& dir_has_path(final(self).entries@, new_path@)
                &&& dir_ino_of(final(self).entries@, new_path@) == dir_ino_of(
                    old(self).entries@,
                    old_path@,
                )
                &&& forall|p: Seq<u8>|
                    p != old_path@ && p != new_path@ ==> (dir_has_path(
                        final(self).entries@,
                        p,
                    ) <==> dir_has_path(old(self).entries@, p))
                &&& forall|p: Seq<u8>|
                    p != old_path@ && p != new_path@ && dir_has_path(old(self).entries@, p)
                        ==> dir_ino_of(final(self).entries@, p) == dir_ino_of(
                        old(self).entries@,
                        p,
                    )
            },
    {
        if bytes_eq(old_path, new_path) {
            return;
        }
        let moved = self.remove_path(old_path);
        match moved {
            None => {},
            Some(ino) => {
                proof {
                    let o = old(self).entries@;
                    let wit = choose|i: int| 0 <= i < o.len() && o[i].1@ == old_path@;
                    assert(wit >= 1) by {
                        assert(o[0].1@ == root_path());
                    }
                    assert(2 <= ino < self.next_ino);
                    lemma_remove_one_preserves_bindings(o, self.entries@, old_path@);
                }
                let ghost mid = self.entries@;
                let _ = self.remove_path(new_path);
                proof {
                    if dir_has_path(mid, new_path@) {
                        lemma_remove_one_preserves_bindings(mid, self.entries@, new_path@);
                    }
                }
                let ghost before_push = self.entries@;
                let np = clone_bytes(new_path);
                self.entries.push((ino, np));
                proof {
                    let m = self.entries@;
                    assert(forall|k: int|
                        0 <= k < before_push.len() ==> m[k] == before_push[k]);
                    assert(m[m.len() - 1].1@ == new_path@);
                    assert forall|p: Seq<u8>| p != new_path@ implies (dir_has_path(m, p)
                        <==> dir_has_path(before_push, p)) by {
                        if dir_has_path(m, p) {
                            let w = choose|i: int| 0 <= i < m.len() && m[i].1@ == p;
                            assert(w < m.len() - 1);
                            assert(before_push[w].1@ == p);
                        }
                        if dir_has_path(before_push, p) {
                            let w = choose|i: int|
                                0 <= i < before_push.len() && before_push[i].1@ == p;
                            assert(m[w].1@ == p);
                        }
                    }
                    assert forall|p: Seq<u8>|
                        p != new_path@ && dir_has_path(before_push, p) implies dir_ino_of(m, p)
                        == dir_ino_of(before_push, p) by {
                        let w = choose|i: int| 0 <= i < m.len() && m[i].1@ == p;
                        let w2 = choose|i: int|
                            0 <= i < before_push.len() && before_push[i].1@ == p;
                        assert(w < m.len() - 1);
                        if w < w2 {
                            assert(before_push[w].1@ != before_push[w2].1@);
                        } else if w2 < w {
                            assert(before_push[w2].1@ != before_push[w].1@);
                        }
                    }
                    let w = choose|i: int| 0 <= i < m.len() && m[i].1@ == new_path@;
                    if w < m.len() - 1 {
                        assert(before_push[w].1@ == new_path@);
                        assert(false);
                    }
                    assert(dir_ino_of(m, new_path@) == ino);
                }
            },
        }
    }

    /// Bind `path` (a new hard link) to the existing inode `ino`, replacing
    /// any previous binding of `path`. Both paths then resolve to `ino`.
    pub fn link_path(&mut self, ino: u64, path: &Vec<u8>)
        requires
            old(self).wf(),
            path@ != root_path(),
            2 <= ino < old(self).next_ino,
        ensures
            final(self).wf(),
            final(self).next_ino == old(self).next_ino,
            dir_has_path(final(self).entries@, path@),
            dir_ino_of(final(self).entries@, path@) == ino,
            forall|p: Seq<u8>|
                p != path@ ==> (dir_has_path(final(self).entries@, p) <==> dir_has_path(
                    old(self).entries@,
                    p,
                )),
            forall|p: Seq<u8>|
                p != path@ && dir_has_path(old(self).entries@, p) ==> dir_ino_of(
                    final(self).entries@,
                    p,
                ) == dir_ino_of(old(self).entries@, p),
    {
        let _ = self.remove_path(path);
        proof {
            if dir_has_path(old(self).entries@, path@) {
                lemma_remove_one_preserves_bindings(old(self).entries@, self.entries@, path@);
            }
        }
        let ghost before_push = self.entries@;
        let p2 = clone_bytes(path);
        self.entries.push((ino, p2));
        proof {
            let m = self.entries@;
            assert(forall|k: int| 0 <= k < before_push.len() ==> m[k] == before_push[k]);
            assert(m[m.len() - 1].1@ == path@);
            assert forall|p: Seq<u8>| p != path@ implies (dir_has_path(m, p) <==> dir_has_path(
                before_push,
                p,
            )) by {
                if dir_has_path(m, p) {
                    let w = choose|i: int| 0 <= i < m.len() && m[i].1@ == p;
                    assert(w < m.len() - 1);
                    assert(before_push[w].1@ == p);
                }
                if dir_has_path(before_push, p) {
                    let w = choose|i: int| 0 <= i < before_push.len() && before_push[i].1@ == p;
                    assert(m[w].1@ == p);
                }
            }
            assert forall|p: Seq<u8>| p != path@ && dir_has_path(before_push, p) implies dir_ino_of(
                m,
                p,
            ) == dir_ino_of(before_push, p) by {
                let w = choose|i: int| 0 <= i < m.len() && m[i].1@ == p;
                let w2 = choose|i: int| 0 <= i < before_push.len() && before_push[i].1@ == p;
                assert(w < m.len() - 1);
                if w < w2 {
                    assert(before_push[w].1@ != before_push[w2].1@);
                } else if w2 < w {
                    assert(before_push[w2].1@ != before_push[w].1@);
                }
            }
            let w = choose|i: int| 0 <= i < m.len() && m[i].1@ == path@;
            if w < m.len() - 1 {
                assert(before_push[w].1@ == path@);
                assert(false);
            }
            assert(dir_ino_of(m, path@) == ino);
        }
    }
}

/// Removing the one entry that binds `p` leaves every other path bound as
/// before.
pub proof fn lemma_remove_one_preserves_bindings(
    o: Seq<(u64, Vec<u8>)>,
    m: Seq<(u64, Vec<u8>)>,
    p: Seq<u8>,
)
    requires
        forall|i: int, j: int| 0 <= i < j < o.len() ==> o[i].1@ != o[j].1@,
        exists|i: int| 0 <= i < o.len() && o[i].1@ == p && m == o.remove(i),
    ensures
        forall|q: Seq<u8>| q != p ==> (dir_has_path(m, q) <==> dir_has_path(o, q)),
        forall|q: Seq<u8>| q != p && dir_has_path(o, q) ==> dir_ino_of(m, q) == dir_ino_of(o, q),
{
    let i = choose|i: int| 0 <= i < o.len() && o[i].1@ == p && m == o.remove(i);
    assert forall|q: Seq<u8>| q != p implies (dir_has_path(m, q) <==> dir_has_path(o, q)) by {
        if dir_has_path(m, q) {
            let w = choose|k: int| 0 <= k < m.len() && m[k].1@ == q;
            if w < i {
                assert(o[w].1@ == q);
            } else {
                assert(o[w + 1].1@ == q);
            }
        }
        if dir_has_path(o, q) {
            let w = choose|k: int| 0 <= k < o.len() && o[k].1@ == q;
            assert(w != i);
            if w < i {
                assert(m[w].1@ == q);
            } else {
                assert(m[w - 1].1@ == q);
            }
        }
    }
    assert forall|q: Seq<u8>| q != p && dir_has_path(o, q) implies dir_ino_of(m, q) == dir_ino_of(
        o,
        q,
    ) by {
        let w = choose|k: int| 0 <= k < o.len() && o[k].1@ == q;
        assert(w != i);
        let w2 = choose|k: int| 0 <= k < m.len() && m[k].1@ == q;
        let w2o: int = if w2 < i {
            w2
        } else {
            w2 + 1
        };
        assert(o[w2o].1@ == q);
        if w < w2o {
            assert(o[w].1@ != o[w2o].1@);
        } else if w2o < w {
            assert(o[w2o].1@ != o[w].1@);
        }
        assert(w == w2o);
    }
}

} // verus!
