//! The registry of installations: one per directory, ordered by directory, built up
//! from the groupings of successive searches, each directory measured once.
use crate::path_index::{contains_path, distinct_paths, insert_path, path_set, PathGroups};
use crate::paths::{
    lemma_path_lt_irreflexive, lemma_path_lt_total, lemma_path_lt_transitive, parent_of, path_less,
    path_lt,
};
use vstd::prelude::*;

verus! {

/// What an installation is: its directory, its measured size, its member files.
pub struct InstallationModel {
    pub directory: Seq<char>,
    pub size: u128,
    pub members: Set<Seq<char>>,
}

/// One directory found to host the runtime.
pub struct Installation {
    directory: String,
    size: u128,
    member_files: Vec<String>,
}

impl View for Installation {
    type V = InstallationModel;

    closed spec fn view(&self) -> InstallationModel {
        InstallationModel {
            directory: self.directory@,
            size: self.size,
            members: path_set(self.member_files@),
        }
    }
}

impl Installation {
    /// Each member file is listed once and lies directly in the directory.
    pub closed spec fn wf(&self) -> bool {
        &&& distinct_paths(self.member_files@)
        &&& forall|j: int|
            0 <= j < self.member_files@.len() ==> parent_of(#[trigger] self.member_files@[j]@) == Some(
                self.directory@,
            )
    }

    /// The directory of the installation.
    pub fn directory(&self) -> (r: &String)
        ensures
            r@ == self@.directory,
    {
        &self.directory
    }

    /// The size measured for the directory.
    pub fn size(&self) -> (r: u128)
        ensures
            r == self@.size,
    {
        self.size
    }

    /// The member files, each once.
    pub fn member_files(&self) -> (r: &Vec<String>)
        requires
            self.wf(),
        ensures
            path_set(r@) == self@.members,
            distinct_paths(r@),
    {
        &self.member_files
    }

    /// Adds the files `fs`, which lie directly in the directory, to the members.
    fn add_members(&mut self, fs: &Vec<String>)
        requires
            old(self).wf(),
            forall|j: int| 0 <= j < fs@.len() ==> parent_of(#[trigger] fs@[j]@) == Some(old(self)@.directory),
        ensures
            final(self).wf(),
            final(self)@ == (InstallationModel { members: old(self)@.members + path_set(fs@), ..old(self)@ }),
    {
        let mut i: usize = 0;
        proof {
            assert(old(self)@.members + path_set(fs@.take(0)) =~= old(self)@.members);
        }
        while i < fs.len()
            invariant
                i <= fs@.len(),
                self.wf(),
                self.directory == old(self).directory,
                self.size == old(self).size,
                forall|j: int| 0 <= j < fs@.len() ==> parent_of(#[trigger] fs@[j]@) == Some(old(self)@.directory),
                self@.members == old(self)@.members + path_set(fs@.take(i as int)),
            decreases fs.len() - i,
        {
            let ghost before = self.member_files@;
            let p = fs[i].clone();
            insert_path(&mut self.member_files, p);
            proof {
                let nm = self.member_files@;
                assert forall|m: int| 0 <= m < nm.len() implies parent_of(#[trigger] nm[m]@) == Some(self.directory@) by {
                    assert(path_set(nm).contains(nm[m]@));
                    if nm[m]@ != fs@[i as int]@ {
                        let o = choose|o: int| 0 <= o < before.len() && before[o]@ == nm[m]@;
                        assert(parent_of(before[o]@) == Some(self.directory@));
                    }
                }
                let t0 = fs@.take(i as int);
                let t1 = fs@.take(i + 1);
                assert(path_set(t1) =~= path_set(t0).insert(fs@[i as int]@)) by {
                    assert(t1[i as int] == fs@[i as int]);
                    assert forall|q: Seq<char>| path_set(t0).contains(q) implies path_set(t1).contains(q) by {
                        let o = choose|o: int| 0 <= o < t0.len() && t0[o]@ == q;
                        assert(t1[o] == t0[o]);
                    }
                    assert forall|q: Seq<char>| path_set(t1).contains(q)
                        implies path_set(t0).insert(fs@[i as int]@).contains(q) by {
                        let o = choose|o: int| 0 <= o < t1.len() && t1[o]@ == q;
                        if o < i {
                            assert(t1[o] == t0[o]);
                        }
                    }
                }
                assert(self@.members =~= old(self)@.members + path_set(fs@.take(i + 1)));
            }
            i = i + 1;
        }
        proof {
            assert(fs@.take(fs@.len() as int) =~= fs@);
        }
    }
}

/// The outcome of measuring one directory: its size, or `None` where it could not be
/// measured.
pub struct Measurement {
    pub directory: String,
    pub size: Option<u128>,
}

/// The outcome that `ms` records for `d` (the first one, where there are several), or
/// `None` where `ms` has none.
pub open spec fn measured(ms: Seq<Measurement>, d: Seq<char>) -> Option<Option<u128>>
    decreases ms.len(),
{
    if ms.len() == 0 {
        None
    } else if ms[0].directory@ == d {
        Some(ms[0].size)
    } else {
        measured(ms.drop_first(), d)
    }
}

/// The outcome recorded for `d` in `ms`.
pub fn find_measurement(ms: &Vec<Measurement>, d: &String) -> (r: Option<Option<u128>>)
    ensures
        r == measured(ms@, d@),
{
    let mut i: usize = 0;
    proof {
        assert(ms@.skip(0) =~= ms@);
    }
    while i < ms.len()
        invariant
            i <= ms@.len(),
            measured(ms@, d@) == measured(ms@.skip(i as int), d@),
        decreases ms.len() - i,
    {
        if ms[i].directory == *d {
            return Some(ms[i].size);
        }
        proof {
            assert(ms@.skip(i as int).drop_first() =~= ms@.skip(i + 1));
        }
        i = i + 1;
    }
    None
}

/// Whether `r` has dealt with `d`: it holds an installation for it, or it could not
/// be measured.
pub open spec fn is_known(r: RegistryModel, d: Seq<char>) -> bool {
    r.installations.contains_key(d) || r.skipped.contains(d)
}

/// The directories of `g` that `r` has not dealt with: those that need a measurement.
pub open spec fn unmeasured(r: RegistryModel, g: Map<Seq<char>, Set<Seq<char>>>) -> Set<Seq<char>> {
    g.dom().filter(|d: Seq<char>| !is_known(r, d))
}

/// The size that `ms` records for `d`, or zero.
pub open spec fn measured_size(ms: Seq<Measurement>, d: Seq<char>) -> u128 {
    match measured(ms, d) {
        Some(Some(size)) => size,
        _ => 0,
    }
}

/// `r` after the files `f` found in directory `d` are merged into it: an existing
/// installation gains them as members and keeps its size; a new directory becomes an
/// installation with the size measured for it, or is recorded as skipped where the
/// measurement failed, or is left alone where there is no measurement for it.
pub open spec fn merge_one(
    r: RegistryModel,
    d: Seq<char>,
    f: Set<Seq<char>>,
    ms: Seq<Measurement>,
) -> RegistryModel {
    if r.installations.contains_key(d) {
        RegistryModel {
            installations: r.installations.insert(
                d,
                InstallationModel { members: r.installations[d].members + f, ..r.installations[d] },
            ),
            ..r
        }
    } else if r.skipped.contains(d) {
        r
    } else {
        match measured(ms, d) {
            Some(Some(size)) => RegistryModel {
                installations: r.installations.insert(d, InstallationModel { directory: d, size, members: f }),
                ..r
            },
            Some(None) => RegistryModel { skipped: r.skipped.insert(d), ..r },
            None => r,
        }
    }
}

/// `r` after every directory of the grouping `g` is merged into it, as `merge_one` says.
pub open spec fn merged(
    r: RegistryModel,
    g: Map<Seq<char>, Set<Seq<char>>>,
    ms: Seq<Measurement>,
) -> RegistryModel {
    RegistryModel {
        installations: Map::new(
            |d: Seq<char>|
                r.installations.contains_key(d) || (g.contains_key(d) && !r.skipped.contains(d) && measured(
                    ms,
                    d,
                ) is Some && measured(ms, d)->0 is Some),
            |d: Seq<char>|
                if r.installations.contains_key(d) {
                    if g.contains_key(d) {
                        InstallationModel { members: r.installations[d].members + g[d], ..r.installations[d] }
                    } else {
                        r.installations[d]
                    }
                } else {
                    InstallationModel { directory: d, size: measured_size(ms, d), members: g[d] }
                },
        ),
        skipped: r.skipped + g.dom().filter(
            |d: Seq<char>| !is_known(r, d) && measured(ms, d) == Some(None::<u128>),
        ),
    }
}

/// Merging directory by directory gives the merge of the whole grouping.
pub proof fn lemma_merged_insert(
    r: RegistryModel,
    g: Map<Seq<char>, Set<Seq<char>>>,
    d: Seq<char>,
    f: Set<Seq<char>>,
    ms: Seq<Measurement>,
)
    requires
        !g.contains_key(d),
    ensures
        merged(r, g.insert(d, f), ms) == merge_one(merged(r, g, ms), d, f, ms),
{
    let a = merged(r, g.insert(d, f), ms);
    let b = merge_one(merged(r, g, ms), d, f, ms);
    assert(a.installations =~= b.installations);
    assert(a.skipped =~= b.skipped);
}

/// Merging an empty grouping changes nothing.
pub proof fn lemma_merged_empty(r: RegistryModel, ms: Seq<Measurement>)
    ensures
        merged(r, Map::empty(), ms) == r,
{
    assert(merged(r, Map::empty(), ms).installations =~= r.installations);
    assert(merged(r, Map::empty(), ms).skipped =~= r.skipped);
}

/// The sum of the sizes in `s`.
pub open spec fn size_total(s: Seq<InstallationModel>) -> nat
    decreases s.len(),
{
    if s.len() == 0 {
        0
    } else {
        size_total(s.drop_last()) + s.last().size as nat
    }
}

proof fn lemma_size_total_prefix(s: Seq<InstallationModel>, i: int)
    requires
        0 <= i <= s.len(),
    ensures
        size_total(s.take(i)) <= size_total(s),
    decreases s.len(),
{
    if i < s.len() {
        assert(s.drop_last().take(i) =~= s.take(i));
        lemma_size_total_prefix(s.drop_last(), i);
    } else {
        assert(s.take(i) =~= s);
    }
}

/// What a registry holds: the installations by directory, and the directories whose
/// size could not be measured, which are left out of the installations.
pub struct RegistryModel {
    pub installations: Map<Seq<char>, InstallationModel>,
    pub skipped: Set<Seq<char>>,
}

/// All installations found, ordered by directory, with the directories that could not
/// be measured.
pub struct Registry {
    entries: Vec<Installation>,
    skipped: Vec<String>,
}

impl View for Registry {
    type V = RegistryModel;

    closed spec fn view(&self) -> RegistryModel {
        RegistryModel {
            installations: Map::new(
                |d: Seq<char>| exists|i: int| 0 <= i < self.entries@.len() && self.entries@[i]@.directory == d,
                |d: Seq<char>|
                    self.entries@[choose|i: int|
                        0 <= i < self.entries@.len() && self.entries@[i]@.directory == d]@,
            ),
            skipped: path_set(self.skipped@),
        }
    }
}

impl Registry {
    /// Installations strictly ordered by directory, each well formed and keyed by its
    /// own directory; skipped directories listed once each.
    pub closed spec fn wf(&self) -> bool {
        &&& forall|i: int, j: int|
            0 <= i < j < self.entries@.len() ==> path_lt(
                #[trigger] self.entries@[i]@.directory,
                #[trigger] self.entries@[j]@.directory,
            )
        &&& forall|i: int| 0 <= i < self.entries@.len() ==> (#[trigger] self.entries@[i]).wf()
        &&& distinct_paths(self.skipped@)
    }

    /// The installations in order of directory.
    pub closed spec fn listing(&self) -> Seq<InstallationModel> {
        self.entries@.map_values(|e: Installation| e@)
    }

    proof fn lemma_entry(&self, i: int)
        requires
            self.wf(),
            0 <= i < self.entries@.len(),
        ensures
            self@.installations.contains_key(self.entries@[i]@.directory),
            self@.installations[self.entries@[i]@.directory] == self.entries@[i]@,
    {
        let d = self.entries@[i]@.directory;
        let k = choose|k: int| 0 <= k < self.entries@.len() && self.entries@[k]@.directory == d;
        if k < i {
            lemma_path_lt_irreflexive(d);
        } else if i < k {
            lemma_path_lt_irreflexive(d);
        }
    }

    /// The registry is ordered by directory, and lists each installation once.
    pub proof fn lemma_listing(&self)
        requires
            self.wf(),
        ensures
            forall|i: int, j: int|
                0 <= i < j < self.listing().len() ==> path_lt(
                    #[trigger] self.listing()[i].directory,
                    #[trigger] self.listing()[j].directory,
                ),
            forall|i: int|
                0 <= i < self.listing().len() ==> #[trigger] self@.installations.contains_key(
                    self.listing()[i].directory,
                ) && self@.installations[self.listing()[i].directory] == self.listing()[i],
            forall|d: Seq<char>|
                #[trigger] self@.installations.contains_key(d) ==> exists|i: int|
                    0 <= i < self.listing().len() && self.listing()[i].directory == d,
    {
        assert forall|i: int| 0 <= i < self.listing().len() implies #[trigger] self@.installations.contains_key(
            self.listing()[i].directory,
        ) && self@.installations[self.listing()[i].directory] == self.listing()[i] by {
            self.lemma_entry(i);
        }
        assert forall|d: Seq<char>| #[trigger] self@.installations.contains_key(d) implies exists|i: int|
            0 <= i < self.listing().len() && self.listing()[i].directory == d by {
            let k = choose|k: int| 0 <= k < self.entries@.len() && self.entries@[k]@.directory == d;
            assert(self.listing()[k].directory == d);
        }
    }

    /// Adds the files `fs` of directory `d`, which has an installation at position `k`.
    fn extend_installation(&mut self, k: usize, fs: &Vec<String>)
        requires
            old(self).wf(),
            k < old(self).entries@.len(),
            forall|j: int|
                0 <= j < fs@.len() ==> parent_of(#[trigger] fs@[j]@) == Some(
                    old(self).entries@[k as int]@.directory,
                ),
        ensures
            final(self).wf(),
            final(self)@ == merge_one(old(self)@, old(self).entries@[k as int]@.directory, path_set(fs@), Seq::empty()),
    {
        let ghost old_entries = self.entries@;
        let ghost d = old_entries[k as int]@.directory;
        proof {
            old(self).lemma_entry(k as int);
        }
        self.entries[k].add_members(fs);
        proof {
            let ne = self.entries@;
            assert(ne == old_entries.update(k as int, ne[k as int]));
            assert(self.wf());
            let target = merge_one(old(self)@, d, path_set(fs@), Seq::empty());
            assert(self@.installations =~= target.installations) by {
                assert forall|e: Seq<char>| #[trigger] self@.installations.contains_key(e)
                    <==> target.installations.contains_key(e) by {
                    if self@.installations.contains_key(e) {
                        let j = choose|j: int| 0 <= j < ne.len() && ne[j]@.directory == e;
                        if j != k {
                            assert(ne[j] == old_entries[j]);
                            old(self).lemma_entry(j);
                        }
                    }
                    if old(self)@.installations.contains_key(e) {
                        let j = choose|j: int| 0 <= j < old_entries.len() && old_entries[j]@.directory == e;
                        if j != k {
                            assert(ne[j] == old_entries[j]);
                        }
                        self.lemma_entry(j);
                    }
                }
                assert forall|e: Seq<char>| #[trigger] self@.installations.contains_key(e)
                    implies self@.installations[e] == target.installations[e] by {
                    let j = choose|j: int| 0 <= j < ne.len() && ne[j]@.directory == e;
                    self.lemma_entry(j);
                    if j != k {
                        assert(ne[j] == old_entries[j]);
                        old(self).lemma_entry(j);
                        lemma_path_lt_irreflexive(d);
                    } else {
                        assert(ne[j]@ == InstallationModel {
                            members: old_entries[j]@.members + path_set(fs@),
                            ..old_entries[j]@
                        });
                    }
                }
            }
            assert(self@.skipped =~= target.skipped);
        }
    }

    /// Merges the grouping of one search: for each of its directories, an existing
    /// installation gains the files as members, keeping its size; a directory not seen
    /// before becomes an installation with the size that `ms` records for it, or is
    /// recorded as skipped where `ms` records a failed measurement.
    pub fn merge(&mut self, groups: &PathGroups, ms: &Vec<Measurement>)
        requires
            old(self).wf(),
            groups.wf(),
        ensures
            final(self).wf(),
            final(self)@ == merged(old(self)@, groups.view(), ms@),
    {
        let n = groups.len();
        let ghost g = groups.view();
        let ghost dl = groups.directory_list();
        proof {
            groups.lemma_directories();
            lemma_merged_empty(old(self)@, ms@);
            assert(g.restrict(dl.take(0).to_set()) =~= Map::empty());
        }
        let mut i: usize = 0;
        while i < n
            invariant
                groups.wf(),
                n == dl.len(),
                g == groups.view(),
                dl == groups.directory_list(),
                i <= n,
                self.wf(),
                self@ == merged(old(self)@, g.restrict(dl.take(i as int).to_set()), ms@),
                forall|a: int, b: int| 0 <= a < b < dl.len() ==> dl[a] != dl[b],
                forall|e: Seq<char>| g.contains_key(e) <==> exists|a: int| 0 <= a < dl.len() && dl[a] == e,
            decreases n - i,
        {
            let d = groups.directory_at(i);
            let fs = groups.files_at(i);
            let ghost sub = g.restrict(dl.take(i as int).to_set());
            let ghost before = self@;
            let ghost before_entries = self.entries@;
            proof {
                assert(g.contains_key(dl[i as int]));
                assert(!sub.contains_key(d@)) by {
                    if sub.contains_key(d@) {
                        let a = choose|a: int| 0 <= a < i && dl.take(i as int)[a] == d@;
                        assert(dl[a] == dl[i as int]);
                    }
                }
                let t0 = dl.take(i as int);
                let t1 = dl.take(i + 1);
                assert(g.restrict(t1.to_set()) =~= sub.insert(d@, g[d@])) by {
                    assert(t1[i as int] == d@);
                    assert forall|e: Seq<char>| #[trigger] t1.to_set().contains(e)
                        <==> t0.to_set().contains(e) || e == d@ by {
                        if t1.to_set().contains(e) {
                            let a = choose|a: int| 0 <= a < t1.len() && t1[a] == e;
                            if a < i {
                                assert(t0[a] == e);
                            }
                        }
                        if t0.to_set().contains(e) {
                            let a = choose|a: int| 0 <= a < t0.len() && t0[a] == e;
                            assert(t1[a] == e);
                        }
                    }
                }
                lemma_merged_insert(old(self)@, sub, d@, g[d@], ms@);
            }
            match self.find(d) {
                Some(k) => {
                    self.extend_installation(k, fs);
                },
                None => {
                    if !contains_path(&self.skipped, d) {
                        match find_measurement(ms, d) {
                            Some(Some(size)) => {
                                let mut e = Installation { directory: d.clone(), size, member_files: Vec::new() };
                                proof {
                                    assert(path_set(e.member_files@) =~= Set::<Seq<char>>::empty());
                                }
                                e.add_members(fs);
                                proof {
                                    assert(e@.members =~= path_set(fs@));
                                }
                                self.insert_installation(e);
                                proof {
                                    assert(self@ == merge_one(before, d@, path_set(fs@), ms@));
                                }
                            },
                            Some(None) => {
                                let ghost old_skipped = self.skipped@;
                                self.skipped.push(d.clone());
                                proof {
                                    assert(self.skipped@[old_skipped.len() as int]@ == d@);
                                    assert(self.entries@ == before_entries);
                                    assert(self@.skipped =~= before.skipped.insert(d@)) by {
                                        assert forall|q: Seq<char>| before.skipped.contains(q)
                                            implies self@.skipped.contains(q) by {
                                            let o = choose|o: int| 0 <= o < old_skipped.len() && old_skipped[o]@ == q;
                                            assert(self.skipped@[o] == old_skipped[o]);
                                        }
                                    }
                                    assert(self@.installations =~= before.installations);
                                }
                            },
                            None => {},
                        }
                    }
                },
            }
            i = i + 1;
        }
        proof {
            assert(g.restrict(dl.take(n as int).to_set()) =~= g) by {
                assert(dl.take(n as int) =~= dl);
            }
        }
    }

    /// The directories of `groups` that this registry has not dealt with yet, each
    /// once: those whose size must be measured before `groups` is merged.
    pub fn pending_measurements(&self, groups: &PathGroups) -> (r: Vec<String>)
        requires
            self.wf(),
            groups.wf(),
        ensures
            distinct_paths(r@),
            path_set(r@) == unmeasured(self@, groups.view()),
    {
        let n = groups.len();
        let ghost g = groups.view();
        let ghost dl = groups.directory_list();
        proof {
            groups.lemma_directories();
        }
        let mut out: Vec<String> = Vec::new();
        let mut i: usize = 0;
        proof {
            assert(path_set(out@) =~= dl.take(0).to_set().filter(|e: Seq<char>| !is_known(self@, e)));
        }
        while i < n
            invariant
                groups.wf(),
                n == dl.len(),
                g == groups.view(),
                dl == groups.directory_list(),
                i <= n,
                self.wf(),
                distinct_paths(out@),
                path_set(out@) == dl.take(i as int).to_set().filter(|e: Seq<char>| !is_known(self@, e)),
                forall|a: int, b: int| 0 <= a < b < dl.len() ==> dl[a] != dl[b],
                forall|e: Seq<char>| g.contains_key(e) <==> exists|a: int| 0 <= a < dl.len() && dl[a] == e,
            decreases n - i,
        {
            let d = groups.directory_at(i);
            let ghost t0 = dl.take(i as int);
            let ghost t1 = dl.take(i + 1);
            let ghost before = out@;
            proof {
                assert(t1[i as int] == d@);
                assert(!t0.to_set().contains(d@)) by {
                    if t0.to_set().contains(d@) {
                        let a = choose|a: int| 0 <= a < t0.len() && t0[a] == d@;
                        assert(dl[a] == dl[i as int]);
                    }
                }
                assert forall|e: Seq<char>| #[trigger] t1.to_set().contains(e)
                    <==> t0.to_set().contains(e) || e == d@ by {
                    if t1.to_set().contains(e) {
                        let a = choose|a: int| 0 <= a < t1.len() && t1[a] == e;
                        if a < i {
                            assert(t0[a] == e);
                        }
                    }
                    if t0.to_set().contains(e) {
                        let a = choose|a: int| 0 <= a < t0.len() && t0[a] == e;
                        assert(t1[a] == e);
                    }
                }
            }
            let known = match self.find(d) {
                Some(k) => {
                    proof {
                        self.lemma_entry(k as int);
                    }
                    true
                },
                None => contains_path(&self.skipped, d),
            };
            assert(known == is_known(self@, d@));
            if !known {
                out.push(d.clone());
                proof {
                    assert(out@[before.len() as int]@ == d@);
                    assert(path_set(out@).contains(d@));
                    let target = t1.to_set().filter(|e: Seq<char>| !is_known(self@, e));
                    assert forall|q: Seq<char>| path_set(out@).contains(q) <==> #[trigger] target.contains(q) by {
                        if path_set(out@).contains(q) {
                            let o = choose|o: int| 0 <= o < out@.len() && out@[o]@ == q;
                            if o < before.len() {
                                assert(out@[o] == before[o]);
                                assert(path_set(before).contains(q));
                            }
                        }
                        if target.contains(q) {
                            if q != d@ {
                                assert(t0.to_set().filter(|e: Seq<char>| !is_known(self@, e)).contains(q));
                                let o = choose|o: int| 0 <= o < before.len() && before[o]@ == q;
                                assert(out@[o] == before[o]);
                            }
                        }
                    }
                    assert(path_set(out@) =~= target);
                    assert forall|a: int, b: int| 0 <= a < b < out@.len() implies out@[a]@ != out@[b]@ by {
                        if b == before.len() {
                            assert(out@[a] == before[a]);
                            assert(path_set(before).contains(before[a]@));
                        } else {
                            assert(out@[a] == before[a]);
                            assert(out@[b] == before[b]);
                        }
                    }
                }
            } else {
                proof {
                    assert(path_set(out@) =~= t1.to_set().filter(|e: Seq<char>| !is_known(self@, e)));
                }
            }
            i = i + 1;
        }
        proof {
            assert(dl.take(n as int) =~= dl);
            assert(path_set(out@) =~= unmeasured(self@, g));
        }
        out
    }

    /// The installations, in order of directory.
    pub fn installations(&self) -> (r: &Vec<Installation>)
        requires
            self.wf(),
        ensures
            r@.map_values(|e: Installation| e@) == self.listing(),
            forall|i: int| 0 <= i < r@.len() ==> (#[trigger] r@[i]).wf(),
    {
        &self.entries
    }

    /// The directories that could not be measured, each once.
    pub fn skipped(&self) -> (r: &Vec<String>)
        requires
            self.wf(),
        ensures
            distinct_paths(r@),
            path_set(r@) == self@.skipped,
    {
        &self.skipped
    }

    /// The number of installations.
    pub fn count(&self) -> (r: usize)
        ensures
            r == self.listing().len(),
    {
        self.entries.len()
    }

    /// The sum of the sizes of all installations, or `None` where it exceeds `u128`.
    pub fn total_size(&self) -> (r: Option<u128>)
        ensures
            r == (if size_total(self.listing()) <= u128::MAX {
                Some(size_total(self.listing()) as u128)
            } else {
                None::<u128>
            }),
    {
        let ghost l = self.listing();
        let mut total: u128 = 0;
        let mut i: usize = 0;
        proof {
            assert(l.take(0) =~= Seq::<InstallationModel>::empty());
        }
        while i < self.entries.len()
            invariant
                l == self.listing(),
                i <= l.len(),
                total == size_total(l.take(i as int)),
            decreases self.entries.len() - i,
        {
            proof {
                assert(l.take(i + 1).drop_last() =~= l.take(i as int));
                assert(l[i as int] == self.entries@[i as int]@);
            }
            match total.checked_add(self.entries[i].size) {
                Some(t) => {
                    total = t;
                },
                None => {
                    proof {
                        lemma_size_total_prefix(l, i + 1);
                    }
                    return None;
                },
            }
            i = i + 1;
        }
        proof {
            assert(l.take(l.len() as int) =~= l);
        }
        Some(total)
    }

    /// An empty registry.
    pub fn new() -> (r: Registry)
        ensures
            r.wf(),
            r@.installations == Map::<Seq<char>, InstallationModel>::empty(),
            r@.skipped == Set::<Seq<char>>::empty(),
    {
        let r = Registry { entries: Vec::new(), skipped: Vec::new() };
        assert(r@.installations =~= Map::<Seq<char>, InstallationModel>::empty());
        assert(r@.skipped =~= Set::<Seq<char>>::empty());
        r
    }

    /// The position of the installation of directory `d`, where there is one.
    fn find(&self, d: &String) -> (r: Option<usize>)
        requires
            self.wf(),
        ensures
            r matches Some(i) ==> i < self.entries@.len() && self.entries@[i as int]@.directory == d@,
            r is None ==> !self@.installations.contains_key(d@),
    {
        let mut i: usize = 0;
        while i < self.entries.len()
            invariant
                i <= self.entries@.len(),
                forall|k: int| 0 <= k < i ==> self.entries@[k]@.directory != d@,
            decreases self.entries.len() - i,
        {
            if self.entries[i].directory == *d {
                return Some(i);
            }
            i = i + 1;
        }
        None
    }

    /// Inserts `e`, whose directory has no installation yet, at its place in the order.
    fn insert_installation(&mut self, e: Installation)
        requires
            old(self).wf(),
            e.wf(),
            !old(self)@.installations.contains_key(e@.directory),
        ensures
            final(self).wf(),
            final(self)@.installations == old(self)@.installations.insert(e@.directory, e@),
            final(self)@.skipped == old(self)@.skipped,
    {
        let n = self.entries.len();
        let mut pos: usize = 0;
        while pos < n && path_less(self.entries[pos].directory.as_str(), e.directory.as_str())
            invariant
                n == self.entries@.len(),
                pos <= n,
                forall|k: int| 0 <= k < pos ==> path_lt(#[trigger] self.entries@[k]@.directory, e@.directory),
            decreases n - pos,
        {
            pos = pos + 1;
        }
        let ghost ev = e@;
        let ghost old_entries = self.entries@;
        proof {
            if pos < n {
                assert(self.entries@[pos as int]@.directory != ev.directory);
                lemma_path_lt_total(self.entries@[pos as int]@.directory, ev.directory);
            }
        }
        self.entries.insert(pos, e);
        proof {
            let ne = self.entries@;
            assert forall|i: int, j: int| 0 <= i < j < ne.len() implies path_lt(
                #[trigger] ne[i]@.directory,
                #[trigger] ne[j]@.directory,
            ) by {
                if j == pos {
                    assert(ne[i] == old_entries[i]);
                } else if i == pos {
                    assert(ne[j] == old_entries[j - 1]);
                    if j - 1 > pos {
                        lemma_path_lt_transitive(ev.directory, old_entries[pos as int]@.directory, ne[j]@.directory);
                    }
                } else {
                    let oi = if i < pos { i } else { i - 1 };
                    let oj = if j < pos { j } else { j - 1 };
                    assert(ne[i] == old_entries[oi]);
                    assert(ne[j] == old_entries[oj]);
                }
            }
            assert(forall|i: int| 0 <= i < ne.len() ==> (#[trigger] ne[i]).wf()) by {
                assert forall|i: int| 0 <= i < ne.len() implies (#[trigger] ne[i]).wf() by {
                    if i < pos {
                        assert(ne[i] == old_entries[i]);
                    } else if i > pos {
                        assert(ne[i] == old_entries[i - 1]);
                    }
                }
            }
            assert(self.wf());
            assert(self@.installations =~= old(self)@.installations.insert(ev.directory, ev)) by {
                assert forall|d: Seq<char>| #[trigger] self@.installations.contains_key(d)
                    <==> old(self)@.installations.insert(ev.directory, ev).contains_key(d) by {
                    if self@.installations.contains_key(d) {
                        let k = choose|k: int| 0 <= k < ne.len() && ne[k]@.directory == d;
                        if k < pos {
                            assert(ne[k] == old_entries[k]);
                        } else if k > pos {
                            assert(ne[k] == old_entries[k - 1]);
                        }
                    }
                    if old(self)@.installations.contains_key(d) {
                        let k = choose|k: int| 0 <= k < old_entries.len() && old_entries[k]@.directory == d;
                        if k < pos {
                            assert(ne[k] == old_entries[k]);
                        } else {
                            assert(ne[k + 1] == old_entries[k]);
                        }
                    }
                    if d == ev.directory {
                        assert(ne[pos as int]@.directory == d);
                    }
                }
                assert forall|d: Seq<char>| #[trigger] self@.installations.contains_key(d)
                    implies self@.installations[d] == old(self)@.installations.insert(ev.directory, ev)[d] by {
                    let k = choose|k: int| 0 <= k < ne.len() && ne[k]@.directory == d;
                    self.lemma_entry(k);
                    if k < pos {
                        assert(ne[k] == old_entries[k]);
                        old(self).lemma_entry(k);
                    } else if k > pos {
                        assert(ne[k] == old_entries[k - 1]);
                        old(self).lemma_entry(k - 1);
                    }
                }
            }
        }
    }
}

/// The registry after the groupings `gs` of successive searches are merged in turn,
/// with `ms` giving the outcome of measuring each directory.
pub open spec fn merged_seq(
    r: RegistryModel,
    gs: Seq<Map<Seq<char>, Set<Seq<char>>>>,
    ms: Seq<Measurement>,
) -> RegistryModel
    decreases gs.len(),
{
    if gs.len() == 0 {
        r
    } else {
        merged(merged_seq(r, gs.drop_last(), ms), gs.last(), ms)
    }
}

/// Every file that one of the groupings `gs` lists under directory `d`.
pub open spec fn files_under(gs: Seq<Map<Seq<char>, Set<Seq<char>>>>, d: Seq<char>) -> Set<Seq<char>> {
    Set::new(|p: Seq<char>| exists|i: int| 0 <= i < gs.len() && gs[i].contains_key(d) && gs[i][d].contains(p))
}

proof fn lemma_untouched(r: RegistryModel, gs: Seq<Map<Seq<char>, Set<Seq<char>>>>, ms: Seq<Measurement>, d: Seq<char>)
    requires
        forall|i: int| 0 <= i < gs.len() ==> !(#[trigger] gs[i]).contains_key(d),
    ensures
        merged_seq(r, gs, ms).installations.contains_key(d) == r.installations.contains_key(d),
        r.installations.contains_key(d) ==> merged_seq(r, gs, ms).installations[d] == r.installations[d],
        merged_seq(r, gs, ms).skipped.contains(d) == r.skipped.contains(d),
    decreases gs.len(),
{
    if gs.len() > 0 {
        assert(forall|i: int| 0 <= i < gs.drop_last().len() ==> gs.drop_last()[i] == gs[i]);
        lemma_untouched(r, gs.drop_last(), ms, d);
        assert(!gs[gs.len() - 1].contains_key(d));
    }
}

/// Grouping across searches: a directory that one or more searches find, and that is
/// measured when first found, ends up as exactly one installation, whose members are
/// all the files that the searches found in it and whose size is the one measured.
pub proof fn lemma_grouping_across_searches(
    r: RegistryModel,
    gs: Seq<Map<Seq<char>, Set<Seq<char>>>>,
    ms: Seq<Measurement>,
    d: Seq<char>,
)
    requires
        !is_known(r, d),
        measured(ms, d) is Some && measured(ms, d)->0 is Some,
        exists|i: int| 0 <= i < gs.len() && gs[i].contains_key(d),
    ensures
        merged_seq(r, gs, ms).installations.contains_key(d),
        merged_seq(r, gs, ms).installations[d].members == files_under(gs, d),
        merged_seq(r, gs, ms).installations[d].size == measured_size(ms, d),
        !merged_seq(r, gs, ms).skipped.contains(d),
    decreases gs.len(),
{
    let front = gs.drop_last();
    let last = gs.last();
    assert(forall|i: int| 0 <= i < front.len() ==> front[i] == gs[i]);
    if exists|i: int| 0 <= i < front.len() && front[i].contains_key(d) {
        lemma_grouping_across_searches(r, front, ms, d);
        assert(files_under(gs, d) =~= if last.contains_key(d) {
            files_under(front, d) + last[d]
        } else {
            files_under(front, d)
        }) by {
            assert forall|p: Seq<char>| files_under(gs, d).contains(p) implies (if last.contains_key(d) {
                files_under(front, d) + last[d]
            } else {
                files_under(front, d)
            }).contains(p) by {
                let i = choose|i: int| 0 <= i < gs.len() && gs[i].contains_key(d) && gs[i][d].contains(p);
                if i < front.len() {
                    assert(front[i] == gs[i]);
                }
            }
        }
    } else {
        assert forall|i: int| 0 <= i < front.len() implies !(#[trigger] front[i]).contains_key(d) by {}
        lemma_untouched(r, front, ms, d);
        assert(last.contains_key(d));
        assert(files_under(gs, d) =~= last[d]) by {
            assert forall|p: Seq<char>| files_under(gs, d).contains(p) implies last[d].contains(p) by {
                let i = choose|i: int| 0 <= i < gs.len() && gs[i].contains_key(d) && gs[i][d].contains(p);
                if i < front.len() {
                    assert(front[i] == gs[i]);
                }
            }
            assert forall|p: Seq<char>| last[d].contains(p) implies files_under(gs, d).contains(p) by {
                assert(gs[gs.len() - 1] == last);
            }
        }
    }
}

/// A directory that a registry has dealt with stays dealt with after any merge.
pub proof fn lemma_known_persists(r: RegistryModel, g: Map<Seq<char>, Set<Seq<char>>>, ms: Seq<Measurement>, d: Seq<char>)
    requires
        is_known(r, d),
    ensures
        is_known(merged(r, g, ms), d),
{
}

proof fn lemma_known_persists_seq(
    r: RegistryModel,
    gs: Seq<Map<Seq<char>, Set<Seq<char>>>>,
    ms: Seq<Measurement>,
    d: Seq<char>,
)
    requires
        is_known(r, d),
    ensures
        is_known(merged_seq(r, gs, ms), d),
    decreases gs.len(),
{
    if gs.len() > 0 {
        lemma_known_persists_seq(r, gs.drop_last(), ms, d);
        lemma_known_persists(merged_seq(r, gs.drop_last(), ms), gs.last(), ms, d);
    }
}

/// Each directory is measured at most once: a directory that needs a measurement
/// before one merge, and for which a measurement is handed to it, needs none before
/// any later merge, whichever searches come in between.
pub proof fn lemma_measured_once(
    r: RegistryModel,
    gs: Seq<Map<Seq<char>, Set<Seq<char>>>>,
    ms: Seq<Measurement>,
    j: int,
    k: int,
    d: Seq<char>,
)
    requires
        0 <= j < k < gs.len(),
        unmeasured(merged_seq(r, gs.take(j), ms), gs[j]).contains(d),
        measured(ms, d) is Some,
    ensures
        !unmeasured(merged_seq(r, gs.take(k), ms), gs[k]).contains(d),
{
    let after_j = merged(merged_seq(r, gs.take(j), ms), gs[j], ms);
    assert(gs.take(j + 1).drop_last() =~= gs.take(j));
    assert(merged_seq(r, gs.take(j + 1), ms) == after_j);
    assert(is_known(after_j, d));
    assert(gs.take(k) =~= gs.take(j + 1) + gs.subrange(j + 1, k));
    lemma_merged_seq_split(r, gs.take(j + 1), gs.subrange(j + 1, k), ms);
    lemma_known_persists_seq(after_j, gs.subrange(j + 1, k), ms, d);
}

proof fn lemma_merged_seq_split(
    r: RegistryModel,
    a: Seq<Map<Seq<char>, Set<Seq<char>>>>,
    b: Seq<Map<Seq<char>, Set<Seq<char>>>>,
    ms: Seq<Measurement>,
)
    ensures
        merged_seq(r, a + b, ms) == merged_seq(merged_seq(r, a, ms), b, ms),
    decreases b.len(),
{
    if b.len() == 0 {
        assert(a + b =~= a);
    } else {
        assert((a + b).drop_last() =~= a + b.drop_last());
        lemma_merged_seq_split(r, a, b.drop_last(), ms);
    }
}

/// Merging the same files into the same directory twice is the same as merging them
/// once: members form a set, and the size is not measured again.
pub proof fn lemma_merge_one_idempotent(r: RegistryModel, d: Seq<char>, f: Set<Seq<char>>, ms: Seq<Measurement>)
    ensures
        merge_one(merge_one(r, d, f, ms), d, f, ms) == merge_one(r, d, f, ms),
{
    let once = merge_one(r, d, f, ms);
    let twice = merge_one(once, d, f, ms);
    if once.installations.contains_key(d) {
        assert(once.installations[d].members + f =~= once.installations[d].members);
        assert(twice.installations =~= once.installations);
    }
}

/// Merging the same grouping twice is the same as merging it once.
pub proof fn lemma_merged_idempotent(r: RegistryModel, g: Map<Seq<char>, Set<Seq<char>>>, ms: Seq<Measurement>)
    ensures
        merged(merged(r, g, ms), g, ms) == merged(r, g, ms),
{
    let once = merged(r, g, ms);
    let twice = merged(once, g, ms);
    assert forall|d: Seq<char>| once.installations.contains_key(d) && g.contains_key(d)
        implies once.installations[d].members + g[d] =~= once.installations[d].members by {}
    assert(twice.installations =~= once.installations);
    assert(twice.skipped =~= once.skipped);
}

} // verus!
