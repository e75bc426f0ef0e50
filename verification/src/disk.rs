use vstd::prelude::*;

use crate::path::{segments_wf, segs_of, AppPath};

verus! {

/// The mathematical value of the filesystem, as far as provisioning reads it:
/// which absolute paths are directories and which are other entries.
#[verifier::ext_equal]
pub struct DiskView {
    pub dirs: Set<Seq<Seq<char>>>,
    pub files: Set<Seq<Seq<char>>>,
}

/// A path stored on the disk: at least one segment, each one valid.
pub open spec fn entry_wf(p: Seq<Seq<char>>) -> bool {
    &&& p.len() > 0
    &&& segments_wf(p)
}

impl DiskView {
    /// A consistent disk: every entry is well formed, no path is both a
    /// directory and a file, and the parent of every entry is a directory.
    pub open spec fn wf(self) -> bool {
        &&& forall|p: Seq<Seq<char>>| self.dirs.contains(p) ==> entry_wf(p)
        &&& forall|p: Seq<Seq<char>>| self.files.contains(p) ==> entry_wf(p)
        &&& forall|p: Seq<Seq<char>>| self.dirs.contains(p) ==> !self.files.contains(p)
        &&& forall|p: Seq<Seq<char>>, i: int|
            #![trigger self.dirs.contains(p), p.subrange(0, i)]
            self.dirs.contains(p) && 1 <= i < p.len() ==> self.dirs.contains(p.subrange(0, i))
        &&& forall|p: Seq<Seq<char>>, i: int|
            #![trigger self.files.contains(p), p.subrange(0, i)]
            self.files.contains(p) && 1 <= i < p.len() ==> self.dirs.contains(p.subrange(0, i))
    }
}

/// The disk with no entries at all.
pub open spec fn empty_disk() -> DiskView {
    DiskView { dirs: Set::empty(), files: Set::empty() }
}

/// The nonempty prefixes of a path, up to depth `k`.
pub open spec fn ancestors_upto(p: Seq<Seq<char>>, k: int) -> Set<Seq<Seq<char>>> {
    Set::new(|q: Seq<Seq<char>>| exists|i: int| 1 <= i <= k && q == p.subrange(0, i))
}

/// Every nonempty prefix of a path, the path itself included.
pub open spec fn ancestors(p: Seq<Seq<char>>) -> Set<Seq<Seq<char>>> {
    ancestors_upto(p, p.len() as int)
}

/// A non-directory entry occupies the path or one of its ancestors, so that
/// recursive directory creation must fail.
pub open spec fn blocked(d: DiskView, p: Seq<Seq<char>>) -> bool {
    exists|i: int| 1 <= i <= p.len() && d.files.contains(#[trigger] p.subrange(0, i))
}

/// Every proper ancestor of the path is a directory.
pub open spec fn parents_present(d: DiskView, p: Seq<Seq<char>>) -> bool {
    forall|i: int| 1 <= i < p.len() ==> d.dirs.contains(#[trigger] p.subrange(0, i))
}

/// The disk after the whole ancestor chain of `p` has been created; entries
/// that already existed are untouched.
pub open spec fn provisioned(d: DiskView, p: Seq<Seq<char>>) -> DiskView {
    DiskView { dirs: d.dirs.union(ancestors(p)), files: d.files }
}

/// Raising the depth bound by one admits exactly one more prefix.
proof fn lemma_ancestors_upto_step(p: Seq<Seq<char>>, i: int)
    requires
        0 <= i < p.len(),
    ensures
        ancestors_upto(p, i + 1) == ancestors_upto(p, i).insert(p.subrange(0, i + 1)),
{
    assert forall|q: Seq<Seq<char>>| #[trigger] ancestors_upto(p, i + 1).contains(q) implies
        ancestors_upto(p, i).insert(p.subrange(0, i + 1)).contains(q) by {
        let j = choose|j: int| 1 <= j <= i + 1 && q == p.subrange(0, j);
        if j <= i {
            assert(ancestors_upto(p, i).contains(q));
        }
    };
    assert forall|q: Seq<Seq<char>>|
        #[trigger] ancestors_upto(p, i).insert(p.subrange(0, i + 1)).contains(q) implies
        ancestors_upto(p, i + 1).contains(q) by {
        if ancestors_upto(p, i).contains(q) {
            let j = choose|j: int| 1 <= j <= i && q == p.subrange(0, j);
            assert(1 <= j <= i + 1 && q == p.subrange(0, j));
        } else {
            assert(q == p.subrange(0, i + 1));
        }
    };
    assert(ancestors_upto(p, i + 1) =~= ancestors_upto(p, i).insert(p.subrange(0, i + 1)));
}

/// No prefix has depth at most zero.
proof fn lemma_ancestors_upto_zero(p: Seq<Seq<char>>)
    ensures
        ancestors_upto(p, 0) == Set::<Seq<Seq<char>>>::empty(),
{
    assert(ancestors_upto(p, 0) =~= Set::<Seq<Seq<char>>>::empty());
}

/// On a consistent disk, a path that already is a directory has its whole
/// ancestor chain present, and nothing blocks re-provisioning it: creating it
/// again changes nothing.
pub proof fn lemma_existing_dir_provisioned(d: DiskView, p: Seq<Seq<char>>)
    requires
        d.wf(),
        d.dirs.contains(p),
        p.len() > 0,
    ensures
        !blocked(d, p),
        provisioned(d, p) == d,
{
    assert(p.subrange(0, p.len() as int) =~= p);
    assert forall|i: int| 1 <= i <= p.len() implies d.dirs.contains(p.subrange(0, i)) by {
        if i < p.len() {
            assert(d.dirs.contains(p.subrange(0, i)));
        } else {
            assert(p.subrange(0, i) =~= p);
        }
    }
    assert(!blocked(d, p)) by {
        if blocked(d, p) {
            let i = choose|i: int| 1 <= i <= p.len() && d.files.contains(p.subrange(0, i));
            assert(d.dirs.contains(p.subrange(0, i)));
        }
    }
    assert forall|q: Seq<Seq<char>>| ancestors(p).contains(q) implies d.dirs.contains(q) by {
        let i = choose|i: int| 1 <= i <= p.len() && q == p.subrange(0, i);
        assert(d.dirs.contains(p.subrange(0, i)));
    };
    assert(provisioned(d, p).dirs =~= d.dirs);
    assert(provisioned(d, p) =~= d);
}

/// An in-memory filesystem holding exactly what provisioning reads and
/// writes: the set of directories and the set of non-directory entries, each
/// named by its absolute path's segments.
pub struct DiskModel {
    dirs: Vec<Vec<String>>,
    files: Vec<Vec<String>>,
}

/// The set of paths named by a list of stored segment lists.
pub open spec fn paths_view(l: Seq<Vec<String>>) -> Set<Seq<Seq<char>>> {
    Set::new(
        |x: Seq<Seq<char>>| exists|k: int| 0 <= k < l.len() && segs_of(#[trigger] l[k]) == x,
    )
}

impl View for DiskModel {
    type V = DiskView;

    closed spec fn view(&self) -> DiskView {
        DiskView { dirs: paths_view(self.dirs@), files: paths_view(self.files@) }
    }
}

/// Appending a stored path adds exactly that path to the named set.
proof fn lemma_paths_view_push(l: Seq<Vec<String>>, q: Vec<String>)
    ensures
        paths_view(l.push(q)) == paths_view(l).insert(segs_of(q)),
{
    let l1 = l.push(q);
    assert forall|x: Seq<Seq<char>>| paths_view(l1).contains(x) implies paths_view(l).insert(
        segs_of(q),
    ).contains(x) by {
        let k = choose|k: int| 0 <= k < l1.len() && segs_of(l1[k]) == x;
        if k < l.len() {
            assert(segs_of(l[k]) == x);
            assert(paths_view(l).contains(x));
        } else {
            assert(l1[k] == q);
        }
    };
    assert forall|x: Seq<Seq<char>>| paths_view(l).insert(segs_of(q)).contains(x) implies
        paths_view(l1).contains(x) by {
        if paths_view(l).contains(x) {
            let k = choose|k: int| 0 <= k < l.len() && segs_of(l[k]) == x;
            assert(l1[k] == l[k]);
            assert(segs_of(l1[k]) == x);
        } else {
            assert(l1[l.len() as int] == q);
            assert(segs_of(l1[l.len() as int]) == x);
        }
    };
    assert(paths_view(l1) =~= paths_view(l).insert(segs_of(q)));
}

impl DiskModel {
    /// A disk with no entries.
    pub fn new() -> (d: DiskModel)
        ensures
            d@ == empty_disk(),
            d@.wf(),
    {
        let d = DiskModel { dirs: Vec::new(), files: Vec::new() };
        proof {
            assert(d@.dirs =~= Set::<Seq<Seq<char>>>::empty());
            assert(d@.files =~= Set::<Seq<Seq<char>>>::empty());
            assert(d@ =~= empty_disk());
        }
        d
    }

    /// Whether the path names a directory.
    pub fn is_dir(&self, p: &AppPath) -> (r: bool)
        ensures
            r == self@.dirs.contains(p@.segments),
    {
        contains_path(&self.dirs, p.segments())
    }

    /// Whether the path names a non-directory entry.
    pub fn is_file(&self, p: &AppPath) -> (r: bool)
        ensures
            r == self@.files.contains(p@.segments),
    {
        contains_path(&self.files, p.segments())
    }

    /// Whether the path names any entry at all.
    pub fn entry_exists(&self, p: &AppPath) -> (r: bool)
        ensures
            r == (self@.dirs.contains(p@.segments) || self@.files.contains(p@.segments)),
    {
        self.is_dir(p) || self.is_file(p)
    }

    /// Whether the stored segments name a directory.
    fn is_dir_segs(&self, p: &Vec<String>) -> (r: bool)
        ensures
            r == self@.dirs.contains(segs_of(*p)),
    {
        contains_path(&self.dirs, p)
    }

    /// Whether the stored segments name a non-directory entry.
    fn is_file_segs(&self, p: &Vec<String>) -> (r: bool)
        ensures
            r == self@.files.contains(segs_of(*p)),
    {
        contains_path(&self.files, p)
    }

    /// Records one more directory.
    fn push_dir(&mut self, q: Vec<String>)
        ensures
            final(self)@.dirs == old(self)@.dirs.insert(segs_of(q)),
            final(self)@.files == old(self)@.files,
    {
        proof {
            lemma_paths_view_push(self.dirs@, q);
        }
        self.dirs.push(q);
    }

    /// Records one more non-directory entry.
    fn push_file(&mut self, q: Vec<String>)
        ensures
            final(self)@.files == old(self)@.files.insert(segs_of(q)),
            final(self)@.dirs == old(self)@.dirs,
    {
        proof {
            lemma_paths_view_push(self.files@, q);
        }
        self.files.push(q);
    }

    /// Creates the directory and every missing ancestor, in one walk from the
    /// shallowest segment down. An ancestor that already is a directory is
    /// left as it is, so a second creator racing over the same chain sees no
    /// failure; a non-directory entry anywhere on the chain makes the whole
    /// call fail without touching the disk.
    pub fn create_dir_all(&mut self, p: &AppPath) -> (ok: bool)
        requires
            old(self)@.wf(),
            p@.wf(),
        ensures
            final(self)@.wf(),
            ok == !blocked(old(self)@, p@.segments),
            ok ==> final(self)@ == provisioned(old(self)@, p@.segments),
            !ok ==> final(self)@ == old(self)@,
    {
        let segs = p.segments();
        let ghost target = p@.segments;
        let n = segs.len();
        let mut cur: Vec<String> = Vec::new();
        let mut i: usize = 0;
        proof {
            lemma_ancestors_upto_zero(target);
            assert(self@.dirs =~= old(self)@.dirs.union(ancestors_upto(target, 0)));
        }
        while i < n
            invariant
                0 <= i <= n,
                n == target.len(),
                target == p@.segments,
                segs_of(*segs) == target,
                p@.wf(),
                old(self)@.wf(),
                self@.wf(),
                cur.len() == i,
                forall|k: int| 0 <= k < i ==> cur@[k]@ == #[trigger] target[k],
                self@.files == old(self)@.files,
                self@.dirs == old(self)@.dirs.union(ancestors_upto(target, i as int)),
                forall|j: int|
                    1 <= j <= i ==> !old(self)@.files.contains(#[trigger] target.subrange(0, j)),
                forall|j: int|
                    1 <= j <= i ==> self@.dirs.contains(#[trigger] target.subrange(0, j)),
            decreases n - i,
        {
            let ghost next = target.subrange(0, i + 1);
            let nextseg = segs[i].clone();
            proof {
                assert(segs_of(*segs)[i as int] == segs[i as int]@);
                assert(nextseg@ == target[i as int]);
            }
            cur.push(nextseg);
            proof {
                assert(segs_of(cur) =~= next);
            }
            if self.is_file_segs(&cur) {
                proof {
                    assert(old(self)@.files.contains(next));
                    assert(blocked(old(self)@, target));
                    assert forall|q: Seq<Seq<char>>|
                        ancestors_upto(target, i as int).contains(q) implies old(
                        self,
                    )@.dirs.contains(q) by {
                        let j = choose|j: int| 1 <= j <= i && q == target.subrange(0, j);
                        assert(next.subrange(0, j) =~= target.subrange(0, j));
                        assert(old(self)@.dirs.contains(next.subrange(0, j)));
                    };
                    assert(self@.dirs =~= old(self)@.dirs);
                    assert(self@ =~= old(self)@);
                }
                return false;
            }
            if !self.is_dir_segs(&cur) {
                let q = cur.clone();
                proof {
                    assert(segs_of(q) =~= segs_of(cur));
                }
                self.push_dir(q);
                proof {
                    lemma_ancestors_upto_step(target, i as int);
                    assert(self@.dirs =~= old(self)@.dirs.union(
                        ancestors_upto(target, i + 1),
                    ));
                    assert(entry_wf(next)) by {
                        assert forall|k: int| 0 <= k < next.len() implies crate::path::seg_wf(
                            #[trigger] next[k],
                        ) by {
                            assert(next[k] == target[k]);
                        };
                    }
                    assert(self@.wf()) by {
                        let d = self@;
                        assert forall|x: Seq<Seq<char>>| d.dirs.contains(x) implies entry_wf(
                            x,
                        ) by {
                            if x != next {
                                assert(old(self)@.dirs.union(
                                    ancestors_upto(target, i as int),
                                ).contains(x));
                            }
                        };
                        assert forall|x: Seq<Seq<char>>| d.dirs.contains(x) implies !d.files.contains(
                            x,
                        ) by {
                            if x != next {
                                assert(old(self)@.dirs.union(
                                    ancestors_upto(target, i as int),
                                ).contains(x));
                            }
                        };
                        assert forall|x: Seq<Seq<char>>, j: int|
                            #![trigger d.dirs.contains(x), x.subrange(0, j)]
                            d.dirs.contains(x) && 1 <= j < x.len() implies d.dirs.contains(
                            x.subrange(0, j),
                        ) by {
                            if x == next {
                                assert(x.subrange(0, j) =~= target.subrange(0, j));
                                assert(old(self)@.dirs.union(
                                    ancestors_upto(target, i as int),
                                ).contains(target.subrange(0, j)));
                                assert(d.dirs.contains(target.subrange(0, j)));
                            } else {
                                assert(old(self)@.dirs.union(
                                    ancestors_upto(target, i as int),
                                ).contains(x));
                                assert(old(self)@.dirs.union(
                                    ancestors_upto(target, i as int),
                                ).contains(x.subrange(0, j)));
                            }
                        };
                        assert forall|x: Seq<Seq<char>>, j: int|
                            #![trigger d.files.contains(x), x.subrange(0, j)]
                            d.files.contains(x) && 1 <= j < x.len() implies d.dirs.contains(
                            x.subrange(0, j),
                        ) by {
                            assert(old(self)@.dirs.union(
                                ancestors_upto(target, i as int),
                            ).contains(x.subrange(0, j)));
                        };
                    }
                }
            } else {
                proof {
                    lemma_ancestors_upto_step(target, i as int);
                    assert(self@.dirs.contains(next));
                    assert(self@.dirs =~= old(self)@.dirs.union(
                        ancestors_upto(target, i + 1),
                    ));
                }
            }
            i += 1;
        }
        proof {
            assert(!blocked(old(self)@, target)) by {
                if blocked(old(self)@, target) {
                    let j = choose|j: int|
                        1 <= j <= target.len() && old(self)@.files.contains(
                            target.subrange(0, j),
                        );
                    assert(!old(self)@.files.contains(target.subrange(0, j)));
                }
            }
            assert(ancestors(target) == ancestors_upto(target, n as int));
            assert(self@ =~= provisioned(old(self)@, target));
        }
        true
    }

    /// Records a non-directory entry at the path, as an outside actor would
    /// put one there: every ancestor must already be a directory and the path
    /// itself must not be one.
    pub fn create_file(&mut self, p: &AppPath) -> (ok: bool)
        requires
            old(self)@.wf(),
            p@.wf(),
        ensures
            final(self)@.wf(),
            ok == (parents_present(old(self)@, p@.segments) && !old(self)@.dirs.contains(
                p@.segments,
            )),
            ok ==> final(self)@ == (DiskView {
                dirs: old(self)@.dirs,
                files: old(self)@.files.insert(p@.segments),
            }),
            !ok ==> final(self)@ == old(self)@,
    {
        let segs = p.segments();
        let ghost target = p@.segments;
        let n = segs.len();
        let mut cur: Vec<String> = Vec::new();
        let mut i: usize = 0;
        while i + 1 < n
            invariant
                n >= 1,
                0 <= i <= n - 1,
                n == target.len(),
                target == p@.segments,
                segs_of(*segs) == target,
                p@.wf(),
                self@ == old(self)@,
                old(self)@.wf(),
                cur.len() == i,
                forall|k: int| 0 <= k < i ==> cur@[k]@ == #[trigger] target[k],
                forall|j: int|
                    1 <= j <= i ==> old(self)@.dirs.contains(#[trigger] target.subrange(0, j)),
            decreases n - i,
        {
            let ghost next = target.subrange(0, i + 1);
            let nextseg = segs[i].clone();
            proof {
                assert(segs_of(*segs)[i as int] == segs[i as int]@);
                assert(nextseg@ == target[i as int]);
            }
            cur.push(nextseg);
            proof {
                assert(segs_of(cur) =~= next);
            }
            if !self.is_dir_segs(&cur) {
                proof {
                    assert(!parents_present(old(self)@, target));
                }
                return false;
            }
            i += 1;
        }
        let ghost full = target.subrange(0, n as int);
        let lastseg = segs[i].clone();
        proof {
            assert(segs_of(*segs)[i as int] == segs[i as int]@);
            assert(lastseg@ == target[i as int]);
        }
        cur.push(lastseg);
        proof {
            assert(full =~= target);
            assert(segs_of(cur) =~= target);
        }
        if self.is_dir_segs(&cur) {
            return false;
        }
        proof {
            assert(parents_present(old(self)@, target)) by {
                assert forall|j: int| 1 <= j < target.len() implies old(self)@.dirs.contains(
                    target.subrange(0, j),
                ) by {
                    assert(j <= i);
                };
            }
        }
        self.push_file(cur);
        proof {
            let d = self@;
            assert(entry_wf(target));
            assert forall|x: Seq<Seq<char>>| d.files.contains(x) implies entry_wf(x) by {
                if x != target {
                    assert(old(self)@.files.contains(x));
                }
            };
            assert forall|x: Seq<Seq<char>>| d.dirs.contains(x) implies !d.files.contains(x) by {
                assert(x != target);
                assert(!old(self)@.files.contains(x));
            };
            assert forall|x: Seq<Seq<char>>, j: int|
                #![trigger d.files.contains(x), x.subrange(0, j)]
                d.files.contains(x) && 1 <= j < x.len() implies d.dirs.contains(
                x.subrange(0, j),
            ) by {
                if x == target {
                    assert(old(self)@.dirs.contains(target.subrange(0, j)));
                } else {
                    assert(old(self)@.files.contains(x));
                }
            };
            assert(self@.wf());
        }
        true
    }
}

/// Whether some stored path names the same segments as `p`.
fn contains_path(list: &Vec<Vec<String>>, p: &Vec<String>) -> (r: bool)
    ensures
        r == paths_view(list@).contains(segs_of(*p)),
{
    let mut i: usize = 0;
    while i < list.len()
        invariant
            0 <= i <= list.len(),
            forall|k: int| 0 <= k < i ==> segs_of(#[trigger] list@[k]) != segs_of(*p),
        decreases list.len() - i,
    {
        if path_eq(&list[i], p) {
            proof {
                assert(segs_of(list@[i as int]) == segs_of(*p));
                assert(paths_view(list@).contains(segs_of(*p)));
            }
            return true;
        }
        i += 1;
    }
    proof {
        if paths_view(list@).contains(segs_of(*p)) {
            let k = choose|k: int| 0 <= k < list@.len() && segs_of(list@[k]) == segs_of(*p);
            assert(segs_of(list@[k]) != segs_of(*p));
        }
    }
    false
}

/// Whether two segment lists name the same path.
fn path_eq(a: &Vec<String>, b: &Vec<String>) -> (r: bool)
    ensures
        r == (segs_of(*a) == segs_of(*b)),
{
    if a.len() != b.len() {
        proof {
            assert(segs_of(*a).len() != segs_of(*b).len());
        }
        return false;
    }
    let mut i: usize = 0;
    while i < a.len()
        invariant
            a.len() == b.len(),
            0 <= i <= a.len(),
            forall|k: int| 0 <= k < i ==> segs_of(*a)[k] == segs_of(*b)[k],
        decreases a.len() - i,
    {
        if !(a[i] == b[i]) {
            proof {
                assert(segs_of(*a)[i as int] == a[i as int]@);
                assert(segs_of(*b)[i as int] == b[i as int]@);
            }
            return false;
        }
        proof {
            assert(segs_of(*a)[i as int] == a[i as int]@);
            assert(segs_of(*b)[i as int] == b[i as int]@);
        }
        i += 1;
    }
    proof {
        assert(segs_of(*a) =~= segs_of(*b));
    }
    true
}

} // verus!
