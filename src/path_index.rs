//! Candidate paths of one search, kept when they are regular files and grouped by the
//! directory that holds them.
use crate::paths::{parent_directory, parent_of};
use vstd::prelude::*;

verus! {

/// The set of paths held in `v`.
pub open spec fn path_set(v: Seq<String>) -> Set<Seq<char>> {
    Set::new(|p: Seq<char>| exists|j: int| 0 <= j < v.len() && v[j]@ == p)
}

/// No path occurs twice in `v`.
pub open spec fn distinct_paths(v: Seq<String>) -> bool {
    forall|i: int, j: int| 0 <= i < j < v.len() ==> v[i]@ != v[j]@
}

/// Whether `v` holds `p`.
pub fn contains_path(v: &Vec<String>, p: &String) -> (r: bool)
    ensures
        r == path_set(v@).contains(p@),
{
    let mut i: usize = 0;
    while i < v.len()
        invariant
            i <= v@.len(),
            forall|j: int| 0 <= j < i ==> v@[j]@ != p@,
        decreases v.len() - i,
    {
        if v[i] == *p {
            return true;
        }
        i = i + 1;
    }
    false
}

/// Adds `p` to `v` unless `v` already holds it.
pub fn insert_path(v: &mut Vec<String>, p: String)
    requires
        distinct_paths(old(v)@),
    ensures
        distinct_paths(final(v)@),
        path_set(final(v)@) == path_set(old(v)@).insert(p@),
        forall|q: Seq<char>| path_set(final(v)@).contains(q) ==> q == p@ || path_set(old(v)@).contains(q),
{
    if !contains_path(v, &p) {
        let ghost pv = p@;
        v.push(p);
        proof {
            assert(final(v)@[old(v)@.len() as int]@ == pv);
            assert(path_set(final(v)@) =~= path_set(old(v)@).insert(pv)) by {
                assert forall|q: Seq<char>| path_set(old(v)@).contains(q) implies path_set(final(v)@).contains(q) by {
                    let j = choose|j: int| 0 <= j < old(v)@.len() && old(v)@[j]@ == q;
                    assert(final(v)@[j] == old(v)@[j]);
                }
            }
        }
    } else {
        proof {
            assert(path_set(final(v)@) =~= path_set(old(v)@).insert(p@));
        }
    }
}

/// One path returned by a search, with whether it is a regular file.
pub struct Candidate {
    pub path: String,
    pub is_file: bool,
}

/// The paths of the regular files among `cs` that have a parent directory.
pub open spec fn regular_files(cs: Seq<Candidate>) -> Set<Seq<char>> {
    Set::new(
        |p: Seq<char>|
            exists|i: int|
                0 <= i < cs.len() && #[trigger] cs[i].path@ == p && cs[i].is_file && parent_of(p) is Some,
    )
}

/// `files` grouped by parent directory: each directory that holds one of them, with
/// those of them that it holds.
pub open spec fn by_parent(files: Set<Seq<char>>) -> Map<Seq<char>, Set<Seq<char>>> {
    Map::new(
        |d: Seq<char>| exists|p: Seq<char>| files.contains(p) && parent_of(p) == Some(d),
        |d: Seq<char>| files.filter(|p: Seq<char>| parent_of(p) == Some(d)),
    )
}

/// The regular files among `cs`, grouped by parent directory.
pub open spec fn grouped(cs: Seq<Candidate>) -> Map<Seq<char>, Set<Seq<char>>> {
    by_parent(regular_files(cs))
}

/// The files found by one search, grouped by the directory that holds them.
pub struct PathGroups {
    directories: Vec<String>,
    files: Vec<Vec<String>>,
}

impl PathGroups {
    /// Each directory once, each with at least one file, each file once and held by
    /// the directory it is listed under.
    pub closed spec fn wf(&self) -> bool {
        &&& self.directories@.len() == self.files@.len()
        &&& distinct_paths(self.directories@)
        &&& forall|i: int| 0 <= i < self.files@.len() ==> #[trigger] self.files@[i]@.len() > 0
        &&& forall|i: int| 0 <= i < self.files@.len() ==> distinct_paths(#[trigger] self.files@[i]@)
        &&& forall|i: int, j: int|
            0 <= i < self.files@.len() && 0 <= j < self.files@[i]@.len() ==> parent_of(
                #[trigger] self.files@[i]@[j]@,
            ) == Some(self.directories@[i]@)
    }

    /// Every file of every group.
    pub closed spec fn all_files(&self) -> Set<Seq<char>> {
        Set::new(
            |p: Seq<char>|
                exists|i: int| 0 <= i < self.files@.len() && #[trigger] path_set(self.files@[i]@).contains(p),
        )
    }

    /// Each directory, mapped to the set of its files.
    pub closed spec fn view(&self) -> Map<Seq<char>, Set<Seq<char>>> {
        by_parent(self.all_files())
    }

    proof fn lemma_group_view(&self, i: int)
        requires
            self.wf(),
            0 <= i < self.directories@.len(),
        ensures
            self.view().contains_key(self.directories@[i]@),
            self.view()[self.directories@[i]@] == path_set(self.files@[i]@),
    {
        let d = self.directories@[i]@;
        let p0 = self.files@[i]@[0]@;
        assert(path_set(self.files@[i]@).contains(p0));
        assert(self.all_files().contains(p0));
        assert(self.view()[d] =~= path_set(self.files@[i]@)) by {
            assert forall|p: Seq<char>| #[trigger] self.all_files().contains(p) && parent_of(p) == Some(d)
                implies path_set(self.files@[i]@).contains(p) by {
                let k = choose|k: int| 0 <= k < self.files@.len() && #[trigger] path_set(self.files@[k]@).contains(p);
                let j = choose|j: int| 0 <= j < self.files@[k]@.len() && self.files@[k]@[j]@ == p;
                assert(parent_of(self.files@[k]@[j]@) == Some(self.directories@[k]@));
                assert(k == i);
            }
            assert forall|p: Seq<char>| path_set(self.files@[i]@).contains(p)
                implies #[trigger] self.all_files().contains(p) && parent_of(p) == Some(d) by {
                let j = choose|j: int| 0 <= j < self.files@[i]@.len() && self.files@[i]@[j]@ == p;
                assert(parent_of(self.files@[i]@[j]@) == Some(d));
            }
        }
    }

    /// The directories in the order in which they were first met.
    pub closed spec fn directory_list(&self) -> Seq<Seq<char>> {
        self.directories@.map_values(|d: String| d@)
    }

    /// The directories are listed once each, and are those of the grouping.
    pub proof fn lemma_directories(&self)
        requires
            self.wf(),
        ensures
            forall|i: int, j: int|
                0 <= i < j < self.directory_list().len() ==> self.directory_list()[i] != self.directory_list()[j],
            forall|d: Seq<char>|
                self.view().contains_key(d) <==> exists|i: int|
                    0 <= i < self.directory_list().len() && self.directory_list()[i] == d,
    {
        assert forall|d: Seq<char>| self.view().contains_key(d) implies exists|i: int|
            0 <= i < self.directory_list().len() && self.directory_list()[i] == d by {
            let p = choose|p: Seq<char>| self.all_files().contains(p) && parent_of(p) == Some(d);
            let k = choose|k: int| 0 <= k < self.files@.len() && #[trigger] path_set(self.files@[k]@).contains(p);
            let j = choose|j: int| 0 <= j < self.files@[k]@.len() && self.files@[k]@[j]@ == p;
            assert(parent_of(self.files@[k]@[j]@) == Some(self.directories@[k]@));
            assert(self.directory_list()[k] == d);
        }
        assert forall|d: Seq<char>| (exists|i: int|
            0 <= i < self.directory_list().len() && self.directory_list()[i] == d) implies self.view().contains_key(d) by {
            let i = choose|i: int| 0 <= i < self.directory_list().len() && self.directory_list()[i] == d;
            self.lemma_group_view(i);
        }
    }

    /// The number of directories.
    pub fn len(&self) -> (r: usize)
        requires
            self.wf(),
        ensures
            r == self.directory_list().len(),
    {
        self.directories.len()
    }

    /// The directory at position `i`.
    pub fn directory_at(&self, i: usize) -> (r: &String)
        requires
            self.wf(),
            i < self.directory_list().len(),
        ensures
            r@ == self.directory_list()[i as int],
    {
        &self.directories[i]
    }

    /// The files of the directory at position `i`.
    pub fn files_at(&self, i: usize) -> (r: &Vec<String>)
        requires
            self.wf(),
            i < self.directory_list().len(),
        ensures
            path_set(r@) == self.view()[self.directory_list()[i as int]],
            forall|j: int| 0 <= j < r@.len() ==> parent_of(#[trigger] r@[j]@) == Some(self.directory_list()[i as int]),
    {
        proof {
            self.lemma_group_view(i as int);
        }
        &self.files[i]
    }

    /// The empty grouping.
    pub fn new() -> (r: PathGroups)
        ensures
            r.wf(),
            r.view() == Map::<Seq<char>, Set<Seq<char>>>::empty(),
            r.all_files() == Set::<Seq<char>>::empty(),
    {
        let r = PathGroups { directories: Vec::new(), files: Vec::new() };
        assert(r.all_files() =~= Set::<Seq<char>>::empty());
        assert(r.view() =~= Map::<Seq<char>, Set<Seq<char>>>::empty());
        r
    }

    /// Adds the file `p`, held by the directory `d`.
    fn add_file(&mut self, d: String, p: String)
        requires
            old(self).wf(),
            parent_of(p@) == Some(d@),
        ensures
            final(self).wf(),
            final(self).all_files() == old(self).all_files().insert(p@),
    {
        let n = self.directories.len();
        let mut j: usize = 0;
        while j < n
            invariant
                n == self.directories@.len(),
                j <= n,
                forall|k: int| 0 <= k < j ==> self.directories@[k]@ != d@,
            ensures
                j <= n,
                j < n ==> self.directories@[j as int]@ == d@,
                forall|k: int| 0 <= k < j ==> self.directories@[k]@ != d@,
            decreases n - j,
        {
            if self.directories[j] == d {
                break;
            }
            j = j + 1;
        }
        let ghost pv = p@;
        let ghost old_files = self.files@;
        if j < n {
            insert_path(&mut self.files[j], p);
            proof {
                let nf = self.files@;
                assert(nf == old_files.update(j as int, nf[j as int]));
                assert forall|m: int| 0 <= m < nf[j as int]@.len()
                    implies parent_of(#[trigger] nf[j as int]@[m]@) == Some(self.directories@[j as int]@) by {
                    assert(path_set(nf[j as int]@).contains(nf[j as int]@[m]@));
                    if nf[j as int]@[m]@ != pv {
                        let o = choose|o: int| 0 <= o < old_files[j as int]@.len() && old_files[j as int]@[o]@ == nf[j as int]@[m]@;
                        assert(parent_of(old_files[j as int]@[o]@) == Some(self.directories@[j as int]@));
                    }
                }
                assert(path_set(nf[j as int]@).contains(pv));
                assert(self.wf());
                assert(self.all_files() =~= old(self).all_files().insert(pv)) by {
                    assert(path_set(nf[j as int]@).contains(pv));
                    assert forall|q: Seq<char>| #[trigger] old(self).all_files().contains(q) implies self.all_files().contains(q) by {
                        let k = choose|k: int| 0 <= k < old_files.len() && #[trigger] path_set(old_files[k]@).contains(q);
                        assert(path_set(nf[k]@).contains(q));
                    }
                    assert forall|q: Seq<char>| #[trigger] self.all_files().contains(q) implies q == pv || old(self).all_files().contains(q) by {
                        let k = choose|k: int| 0 <= k < nf.len() && #[trigger] path_set(nf[k]@).contains(q);
                        if k != j && q != pv {
                            assert(path_set(old_files[k]@).contains(q));
                        }
                    }
                }
            }
        } else {
            self.directories.push(d);
            self.files.push(vec![p]);
            proof {
                let nf = self.files@;
                assert(nf[n as int]@.len() == 1 && nf[n as int]@[0]@ == pv);
                assert(forall|k: int| 0 <= k < n ==> nf[k] == old_files[k]);
                assert(forall|k: int| 0 <= k < n ==> self.directories@[k] == old(self).directories@[k]);
                assert(self.wf());
                assert(self.all_files() =~= old(self).all_files().insert(pv)) by {
                    assert(path_set(nf[n as int]@).contains(pv));
                    assert forall|q: Seq<char>| #[trigger] old(self).all_files().contains(q) implies self.all_files().contains(q) by {
                        let k = choose|k: int| 0 <= k < old_files.len() && #[trigger] path_set(old_files[k]@).contains(q);
                        assert(path_set(nf[k]@).contains(q));
                    }
                    assert forall|q: Seq<char>| #[trigger] self.all_files().contains(q) implies q == pv || old(self).all_files().contains(q) by {
                        let k = choose|k: int| 0 <= k < nf.len() && #[trigger] path_set(nf[k]@).contains(q);
                        if k < n {
                            assert(path_set(old_files[k]@).contains(q));
                        }
                    }
                }
            }
        }
    }
}

/// A path whose candidates are none of them regular files is in no group, and a
/// directory whose candidates are none of them regular files makes no group.
pub proof fn lemma_non_files_left_out(cs: Seq<Candidate>, p: Seq<char>, d: Seq<char>)
    requires
        forall|i: int| 0 <= i < cs.len() && #[trigger] cs[i].path@ == p ==> !cs[i].is_file,
        forall|i: int| 0 <= i < cs.len() && parent_of(#[trigger] cs[i].path@) == Some(d) ==> !cs[i].is_file,
    ensures
        forall|e: Seq<char>| grouped(cs).contains_key(e) ==> !grouped(cs)[e].contains(p),
        !grouped(cs).contains_key(d),
{
    assert(!regular_files(cs).contains(p));
    if grouped(cs).contains_key(d) {
        let q = choose|q: Seq<char>| regular_files(cs).contains(q) && parent_of(q) == Some(d);
        let i = choose|i: int| 0 <= i < cs.len() && #[trigger] cs[i].path@ == q && cs[i].is_file && parent_of(q) is Some;
        assert(parent_of(cs[i].path@) == Some(d));
    }
}

/// Keeps the candidates that are regular files and groups them by the directory that
/// holds them. A candidate that is not a regular file (a directory, or a path that no
/// longer exists) is left out and makes no group.
pub fn group_candidates(cs: &Vec<Candidate>) -> (r: PathGroups)
    ensures
        r.wf(),
        r.view() == grouped(cs@),
{
    let mut g = PathGroups::new();
    let mut i: usize = 0;
    proof {
        assert(g.all_files() =~= regular_files(cs@.take(0)));
    }
    while i < cs.len()
        invariant
            i <= cs@.len(),
            g.wf(),
            g.all_files() == regular_files(cs@.take(i as int)),
        decreases cs.len() - i,
    {
        let ghost before = g.all_files();
        let ghost c = cs@[i as int];
        proof {
            assert forall|k: int| 0 <= k < i implies cs@.take(i + 1)[k] == #[trigger] cs@.take(i as int)[k] by {}
            assert(cs@.take(i + 1)[i as int] == c);
        }
        if cs[i].is_file {
            match parent_directory(cs[i].path.as_str()) {
                Some(d) => {
                    g.add_file(d, cs[i].path.clone());
                    proof {
                        assert(regular_files(cs@.take(i + 1)) =~= before.insert(c.path@)) by {
                            assert forall|q: Seq<char>| #[trigger] regular_files(cs@.take(i + 1)).contains(q)
                                implies before.insert(c.path@).contains(q) by {
                                let k = choose|k: int| 0 <= k < i + 1 && #[trigger] cs@.take(i + 1)[k].path@ == q
                                    && cs@.take(i + 1)[k].is_file && parent_of(q) is Some;
                                if k < i {
                                    assert(cs@.take(i as int)[k].path@ == q);
                                }
                            }
                            assert(cs@.take(i + 1)[i as int].path@ == c.path@);
                            assert forall|q: Seq<char>| #[trigger] before.contains(q)
                                implies regular_files(cs@.take(i + 1)).contains(q) by {
                                let k = choose|k: int| 0 <= k < i && #[trigger] cs@.take(i as int)[k].path@ == q
                                    && cs@.take(i as int)[k].is_file && parent_of(q) is Some;
                                assert(cs@.take(i + 1)[k].path@ == q);
                            }
                        }
                    }
                },
                None => {
                    proof {
                        assert(regular_files(cs@.take(i + 1)) =~= before) by {
                            assert forall|q: Seq<char>| #[trigger] regular_files(cs@.take(i + 1)).contains(q)
                                implies before.contains(q) by {
                                let k = choose|k: int| 0 <= k < i + 1 && #[trigger] cs@.take(i + 1)[k].path@ == q
                                    && cs@.take(i + 1)[k].is_file && parent_of(q) is Some;
                                assert(k < i);
                                assert(cs@.take(i as int)[k].path@ == q);
                            }
                            assert forall|q: Seq<char>| #[trigger] before.contains(q)
                                implies regular_files(cs@.take(i + 1)).contains(q) by {
                                let k = choose|k: int| 0 <= k < i && #[trigger] cs@.take(i as int)[k].path@ == q
                                    && cs@.take(i as int)[k].is_file && parent_of(q) is Some;
                                assert(cs@.take(i + 1)[k].path@ == q);
                            }
                        }
                    }
                },
            }
        } else {
            proof {
                assert(regular_files(cs@.take(i + 1)) =~= before) by {
                    assert forall|q: Seq<char>| #[trigger] regular_files(cs@.take(i + 1)).contains(q)
                        implies before.contains(q) by {
                        let k = choose|k: int| 0 <= k < i + 1 && #[trigger] cs@.take(i + 1)[k].path@ == q
                            && cs@.take(i + 1)[k].is_file && parent_of(q) is Some;
                        assert(k < i);
                        assert(cs@.take(i as int)[k].path@ == q);
                    }
                    assert forall|q: Seq<char>| #[trigger] before.contains(q)
                        implies regular_files(cs@.take(i + 1)).contains(q) by {
                        let k = choose|k: int| 0 <= k < i && #[trigger] cs@.take(i as int)[k].path@ == q
                            && cs@.take(i as int)[k].is_file && parent_of(q) is Some;
                        assert(cs@.take(i + 1)[k].path@ == q);
                    }
                }
            }
        }
        i = i + 1;
    }
    proof {
        assert(cs@.take(cs@.len() as int) =~= cs@);
    }
    g
}

} // verus!
