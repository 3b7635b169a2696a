//! The directory state-diff engine. One pass walks a flattened listing
//! of the watched tree (paths, directory flags, file contents as text),
//! compares it against the snapshot of the previous pass, reports every
//! created or modified path, updates the snapshot, and purges snapshot
//! keys whose paths have disappeared from the tree. Deleted paths are
//! bookkeeping only: they are never reported.
//!
//! The engine itself performs no I/O: the caller reads the tree and
//! hands it in as plain values, so a failed read aborts a pass before
//! any snapshot update, never in the middle of one.
use vstd::prelude::*;

verus! {

/// One entry of a flattened directory walk: its path, whether it is a
/// directory, and its full content as text (empty for directories).
pub struct FsEntry {
    pub path: String,
    pub is_dir: bool,
    pub content: String,
}

/// No two entries of a walk share a path; a real directory walk always
/// satisfies this.
pub open spec fn unique_paths(entries: Seq<FsEntry>) -> bool {
    forall|i: int, j: int| 0 <= i < j < entries.len()
        ==> (#[trigger] entries[i].path)@ != (#[trigger] entries[j].path)@
}

/// Some entry of the walk has this path.
pub open spec fn has_path(entries: Seq<FsEntry>, p: Seq<char>) -> bool {
    exists|i: int| 0 <= i < entries.len() && (#[trigger] entries[i].path)@ == p
}

/// Whether one entry is reported against a snapshot: a path new to the
/// snapshot is a creation; a file whose stored content differs is a
/// modification; directories are tracked by presence alone, with no
/// content comparison.
pub open spec fn entry_changed(m: Map<Seq<char>, Seq<char>>, e: FsEntry) -> bool {
    if e.is_dir {
        !m.contains_key(e.path@)
    } else {
        !m.contains_key(e.path@) || m[e.path@] != e.content@
    }
}

/// The snapshot after one entry is processed: a reported file gets its
/// current content stored, a new directory an empty marker entry; an
/// unchanged entry leaves the snapshot alone.
pub open spec fn entry_apply(m: Map<Seq<char>, Seq<char>>, e: FsEntry) -> Map<Seq<char>, Seq<char>> {
    if e.is_dir {
        if m.contains_key(e.path@) {
            m
        } else {
            m.insert(e.path@, Seq::empty())
        }
    } else {
        if entry_changed(m, e) {
            m.insert(e.path@, e.content@)
        } else {
            m
        }
    }
}

/// The snapshot after a whole walk is processed, left to right.
pub open spec fn diff_map(m: Map<Seq<char>, Seq<char>>, entries: Seq<FsEntry>) -> Map<
    Seq<char>,
    Seq<char>,
>
    decreases entries.len(),
{
    if entries.len() == 0 {
        m
    } else {
        diff_map(entry_apply(m, entries[0]), entries.drop_first())
    }
}

/// The paths one pass reports, in walk order.
pub open spec fn diff_changes(m: Map<Seq<char>, Seq<char>>, entries: Seq<FsEntry>) -> Seq<Seq<char>>
    decreases entries.len(),
{
    if entries.len() == 0 {
        Seq::empty()
    } else {
        (if entry_changed(m, entries[0]) {
            seq![entries[0].path@]
        } else {
            Seq::empty()
        }) + diff_changes(entry_apply(m, entries[0]), entries.drop_first())
    }
}

/// The snapshot with every key purged whose path the walk no longer
/// holds: deletions are forgotten, not reported.
pub open spec fn prune_map(m: Map<Seq<char>, Seq<char>>, entries: Seq<FsEntry>) -> Map<
    Seq<char>,
    Seq<char>,
> {
    Map::new(|p: Seq<char>| m.contains_key(p) && has_path(entries, p), |p: Seq<char>| m[p])
}

/// The snapshot one full pass leaves behind: the walk applied, then
/// vanished paths purged.
pub open spec fn spec_fs_changes_map(m: Map<Seq<char>, Seq<char>>, entries: Seq<FsEntry>) -> Map<
    Seq<char>,
    Seq<char>,
> {
    prune_map(diff_map(m, entries), entries)
}

/// The views of a sequence of path strings.
pub open spec fn strs(s: Seq<String>) -> Seq<Seq<char>> {
    s.map_values(|x: String| x@)
}

/// Keys of an association list are pairwise distinct.
pub open spec fn unique_keys(s: Seq<(String, String)>) -> bool {
    forall|i: int, j: int| 0 <= i < j < s.len()
        ==> (#[trigger] s[i].0)@ != (#[trigger] s[j].0)@
}

/// The map an association list denotes, later pairs winning.
pub open spec fn kv_map(s: Seq<(String, String)>) -> Map<Seq<char>, Seq<char>>
    decreases s.len(),
{
    if s.len() == 0 {
        Map::empty()
    } else {
        kv_map(s.drop_last()).insert(s.last().0@, s.last().1@)
    }
}

/// Some pair of the list has this key.
pub open spec fn has_key(s: Seq<(String, String)>, p: Seq<char>) -> bool {
    exists|i: int| 0 <= i < s.len() && (#[trigger] s[i].0)@ == p
}

/// An association list with distinct keys denotes the map that holds
/// exactly its keys, each at its pair's value.
pub proof fn lemma_kv_map_char(s: Seq<(String, String)>)
    requires
        unique_keys(s),
    ensures
        forall|p: Seq<char>| #[trigger] kv_map(s).contains_key(p) <==> has_key(s, p),
        forall|i: int| 0 <= i < s.len() ==> kv_map(s).contains_key((#[trigger] s[i].0)@)
            && kv_map(s)[s[i].0@] == s[i].1@,
    decreases s.len(),
{
    if s.len() > 0 {
        let t = s.drop_last();
        assert(unique_keys(t)) by {
            assert(forall|i: int| 0 <= i < t.len() ==> t[i] == s[i]);
        }
        lemma_kv_map_char(t);
        assert forall|p: Seq<char>| #[trigger] kv_map(s).contains_key(p) <==> has_key(s, p) by {
            if kv_map(s).contains_key(p) {
                if p == s.last().0@ {
                    assert(s[s.len() - 1].0@ == p);
                } else {
                    assert(kv_map(t).contains_key(p));
                    let i = choose|i: int| 0 <= i < t.len() && (#[trigger] t[i].0)@ == p;
                    assert(s[i].0@ == p);
                }
            }
            if has_key(s, p) {
                let i = choose|i: int| 0 <= i < s.len() && (#[trigger] s[i].0)@ == p;
                if i == s.len() - 1 {
                    assert(kv_map(s).contains_key(p));
                } else {
                    assert(t[i].0@ == p);
                    assert(kv_map(t).contains_key(p));
                }
            }
        }
        assert forall|i: int| 0 <= i < s.len() implies kv_map(s).contains_key((#[trigger] s[i].0)@)
            && kv_map(s)[s[i].0@] == s[i].1@ by {
            if i == s.len() - 1 {
            } else {
                assert(t[i] == s[i]);
                assert(s[i].0@ != s.last().0@);
            }
        }
    }
}

/// The diff engine's snapshot: last-observed content, keyed by path.
pub struct Snapshot {
    entries: Vec<(String, String)>,
}

impl View for Snapshot {
    type V = Map<Seq<char>, Seq<char>>;

    closed spec fn view(&self) -> Map<Seq<char>, Seq<char>> {
        kv_map(self.entries@)
    }
}

impl Snapshot {
    /// The association list behind the snapshot has distinct keys.
    pub closed spec fn wf(&self) -> bool {
        unique_keys(self.entries@)
    }

    /// A fresh snapshot: empty, as at orchestrator start.
    pub fn new() -> (r: Snapshot)
        ensures
            r.wf(),
            r@ == Map::<Seq<char>, Seq<char>>::empty(),
    {
        Snapshot { entries: Vec::new() }
    }

    /// The stored content for a path, if the path is tracked.
    pub fn get(&self, key: &String) -> (r: Option<&String>)
        requires
            self.wf(),
        ensures
            match r {
                Some(v) => self@.contains_key(key@) && v@ == self@[key@],
                Option::None => !self@.contains_key(key@),
            },
    {
        let mut i: usize = 0;
        while i < self.entries.len()
            invariant
                self.wf(),
                i <= self.entries@.len(),
                forall|j: int| 0 <= j < i ==> (#[trigger] self.entries@[j].0)@ != key@,
            decreases self.entries@.len() - i,
        {
            if self.entries[i].0 == *key {
                proof {
                    lemma_kv_map_char(self.entries@);
                }
                return Some(&self.entries[i].1);
            }
            i += 1;
        }
        proof {
            lemma_kv_map_char(self.entries@);
            if self@.contains_key(key@) {
                assert(has_key(self.entries@, key@));
            }
        }
        None
    }

    /// Index of the pair holding this key, if the path is tracked.
    fn find_idx(&self, key: &String) -> (r: Option<usize>)
        ensures
            match r {
                Some(i) => i < self.entries@.len() && (self.entries@[i as int].0)@ == key@,
                Option::None => forall|j: int| 0 <= j < self.entries@.len()
                    ==> (#[trigger] self.entries@[j].0)@ != key@,
            },
    {
        let mut i: usize = 0;
        while i < self.entries.len()
            invariant
                i <= self.entries@.len(),
                forall|j: int| 0 <= j < i ==> (#[trigger] self.entries@[j].0)@ != key@,
            decreases self.entries@.len() - i,
        {
            if self.entries[i].0 == *key {
                return Some(i);
            }
            i += 1;
        }
        None
    }

    /// Stores content for a path, replacing what was there.
    pub fn insert(&mut self, key: String, val: String)
        requires
            old(self).wf(),
        ensures
            final(self).wf(),
            final(self)@ == old(self)@.insert(key@, val@),
    {
        proof {
            lemma_kv_map_char(self.entries@);
        }
        let ghost s = self.entries@;
        let idx = self.find_idx(&key);
        let found: bool = idx.is_some();
        let i: usize = match idx {
            Some(i) => i,
            Option::None => 0,
        };
        if found {
            let _ = self.entries.remove(i);
            proof {
                let t = self.entries@;
                assert(t =~= s.take(i as int) + s.skip(i as int + 1));
                assert(forall|j: int| 0 <= j < i ==> t[j] == s[j]);
                assert(forall|j: int| i <= j < t.len() ==> t[j] == s[j + 1]);
                assert(unique_keys(t)) by {
                    assert forall|a: int, b: int| 0 <= a < b < t.len()
                        implies (#[trigger] t[a].0)@ != (#[trigger] t[b].0)@ by {
                        let a2: int = if a < i { a } else { a + 1 };
                        let b2: int = if b < i { b } else { b + 1 };
                        assert(t[a] == s[a2] && t[b] == s[b2]);
                    }
                }
                assert(forall|j: int| 0 <= j < t.len() ==> (#[trigger] t[j].0)@ != key@) by {
                    assert forall|j: int| 0 <= j < t.len() implies (#[trigger] t[j].0)@ != key@ by {
                        let j2: int = if j < i { j } else { j + 1 };
                        assert(t[j] == s[j2]);
                        if j2 != i {
                            assert(s[j2].0@ != s[i as int].0@);
                        }
                    }
                }
            }
        } else {
            proof {
                assert(forall|j: int| 0 <= j < s.len() ==> (#[trigger] s[j].0)@ != key@);
            }
        }
        let ghost t = self.entries@;
        self.entries.push((key, val));
        proof {
            let u = self.entries@;
            assert(u =~= t.push((key, val)));
            assert(unique_keys(u)) by {
                assert forall|a: int, b: int| 0 <= a < b < u.len()
                    implies (#[trigger] u[a].0)@ != (#[trigger] u[b].0)@ by {
                    if b < u.len() - 1 {
                        assert(u[a] == t[a] && u[b] == t[b]);
                    } else {
                        assert(u[a] == t[a]);
                    }
                }
            }
            assert(u.drop_last() =~= t);
            assert(kv_map(u) == kv_map(t).insert(key@, val@));
            lemma_kv_map_char(t);
            lemma_kv_map_char(u);
            assert(kv_map(u) =~= kv_map(s).insert(key@, val@)) by {
                assert forall|p: Seq<char>|
                    kv_map(u).contains_key(p) <==> kv_map(s).insert(key@, val@).contains_key(p) by {
                    if p != key@ {
                        if has_key(t, p) {
                            let j = choose|j: int| 0 <= j < t.len() && (#[trigger] t[j].0)@ == p;
                            if found {
                                let j2: int = if j < i { j } else { j + 1 };
                                assert(s[j2].0@ == p);
                            } else {
                                assert(s[j].0@ == p);
                            }
                        }
                        if has_key(s, p) {
                            let j = choose|j: int| 0 <= j < s.len() && (#[trigger] s[j].0)@ == p;
                            if found {
                                assert(j != i);
                                let j2: int = if j < i { j } else { j - 1 };
                                assert(t[j2].0@ == p);
                            } else {
                                assert(t[j].0@ == p);
                            }
                        }
                    }
                }
                assert forall|p: Seq<char>| #[trigger] kv_map(u).contains_key(p)
                    && kv_map(s).insert(key@, val@).contains_key(p)
                    implies kv_map(u)[p] == kv_map(s).insert(key@, val@)[p] by {
                    if p != key@ {
                        let j = choose|j: int| 0 <= j < t.len() && (#[trigger] t[j].0)@ == p;
                        assert(kv_map(t)[p] == t[j].1@);
                        if found {
                            let j2: int = if j < i { j } else { j + 1 };
                            assert(s[j2] == t[j]);
                            assert(kv_map(s)[p] == s[j2].1@);
                        } else {
                            assert(kv_map(s)[p] == s[j].1@);
                        }
                        assert(kv_map(u)[p] == kv_map(t)[p]);
                    }
                }
            }
        }
    }

    /// Drops every tracked path that the walk no longer visits.
    pub fn retain_paths(&mut self, entries: &Vec<FsEntry>)
        requires
            old(self).wf(),
        ensures
            final(self).wf(),
            final(self)@ == prune_map(old(self)@, entries@),
    {
        let ghost s = self.entries@;
        proof {
            lemma_kv_map_char(s);
        }
        let mut kept: Vec<(String, String)> = Vec::new();
        let ghost mut idxs: Seq<int> = Seq::empty();
        let mut i: usize = 0;
        while i < self.entries.len()
            invariant
                i <= s.len(),
                self.entries@ == s,
                unique_keys(s),
                idxs.len() == kept@.len(),
                forall|a: int, b: int| 0 <= a < b < idxs.len() ==> #[trigger] idxs[a] < #[trigger] idxs[b],
                forall|j: int| 0 <= j < kept@.len() ==> 0 <= #[trigger] idxs[j] < i,
                forall|j: int| 0 <= j < kept@.len() ==> #[trigger] kept@[j] == s[idxs[j]],
                forall|j: int| 0 <= j < kept@.len() ==> has_path(entries@, (#[trigger] kept@[j]).0@),
                forall|l: int| 0 <= l < i && has_path(entries@, (#[trigger] s[l].0)@)
                    ==> has_key(kept@, s[l].0@),
            decreases s.len() - i,
        {
            let keep = contains_path(entries, &self.entries[i].0);
            if keep {
                let ghost prev = kept@;
                let pair = (self.entries[i].0.clone(), self.entries[i].1.clone());
                proof {
                    assert(pair == s[i as int]);
                }
                kept.push(pair);
                proof {
                    idxs = idxs.push(i as int);
                    assert(kept@ =~= prev.push(pair));
                    assert(forall|j: int| 0 <= j < prev.len() ==> kept@[j] == prev[j]);
                    assert(kept@[kept@.len() - 1] == s[i as int]);
                    assert(idxs[idxs.len() - 1] == i as int);
                    assert(forall|j: int| 0 <= j < prev.len() ==> idxs[j] == idxs.drop_last()[j]);
                    assert forall|l: int|
                        0 <= l < i + 1 && has_path(entries@, (#[trigger] s[l].0)@)
                        implies has_key(kept@, s[l].0@) by {
                        if l < i {
                            let j = choose|j: int|
                                0 <= j < prev.len() && (#[trigger] prev[j].0)@ == s[l].0@;
                            assert(kept@[j].0@ == s[l].0@);
                        } else {
                            assert(kept@[kept@.len() - 1].0@ == s[i as int].0@);
                        }
                    }
                }
            }
            i += 1;
        }
        proof {
            assert(unique_keys(kept@)) by {
                assert forall|a: int, b: int| 0 <= a < b < kept@.len()
                    implies (#[trigger] kept@[a].0)@ != (#[trigger] kept@[b].0)@ by {
                    assert(kept@[a] == s[idxs[a]] && kept@[b] == s[idxs[b]]);
                    assert(idxs[a] < idxs[b]);
                }
            }
        }
        self.entries = kept;
        proof {
            let u = self.entries@;
            lemma_kv_map_char(u);
            assert(kv_map(u) =~= prune_map(kv_map(s), entries@)) by {
                assert forall|p: Seq<char>|
                    kv_map(u).contains_key(p) <==> prune_map(kv_map(s), entries@).contains_key(
                        p,
                    ) by {
                    if has_key(u, p) {
                        let j = choose|j: int| 0 <= j < u.len() && (#[trigger] u[j].0)@ == p;
                        assert(u[j] == s[idxs[j]]);
                        assert(s[idxs[j]].0@ == p);
                        assert(kv_map(s).contains_key(p));
                        assert(has_path(entries@, p));
                    }
                    if kv_map(s).contains_key(p) && has_path(entries@, p) {
                        let l = choose|l: int| 0 <= l < s.len() && (#[trigger] s[l].0)@ == p;
                        assert(has_key(u, s[l].0@));
                    }
                }
                assert forall|p: Seq<char>| #[trigger] kv_map(u).contains_key(p)
                    && prune_map(kv_map(s), entries@).contains_key(p)
                    implies kv_map(u)[p] == prune_map(kv_map(s), entries@)[p] by {
                    let j = choose|j: int| 0 <= j < u.len() && (#[trigger] u[j].0)@ == p;
                    assert(kv_map(u)[p] == u[j].1@);
                    assert(u[j] == s[idxs[j]]);
                    assert(kv_map(s)[p] == s[idxs[j]].1@);
                }
            }
        }
    }
}

/// Processing one more entry extends the snapshot and the report by
/// exactly that entry's effect.
pub proof fn lemma_diff_snoc(m: Map<Seq<char>, Seq<char>>, entries: Seq<FsEntry>, e: FsEntry)
    ensures
        diff_map(m, entries.push(e)) == entry_apply(diff_map(m, entries), e),
        diff_changes(m, entries.push(e)) == diff_changes(m, entries) + (if entry_changed(
            diff_map(m, entries),
            e,
        ) {
            seq![e.path@]
        } else {
            Seq::<Seq<char>>::empty()
        }),
    decreases entries.len(),
{
    if entries.len() == 0 {
        assert(entries.push(e).drop_first() =~= Seq::<FsEntry>::empty());
        assert(entries.push(e)[0] == e);
        assert(diff_map(m, entries.push(e)) == diff_map(
            entry_apply(m, entries.push(e)[0]),
            entries.push(e).drop_first(),
        ));
        assert(diff_map(entry_apply(m, e), Seq::<FsEntry>::empty()) == entry_apply(m, e));
        assert(diff_changes(m, entries.push(e)) == (if entry_changed(m, e) {
            seq![e.path@]
        } else {
            Seq::<Seq<char>>::empty()
        }) + diff_changes(entry_apply(m, e), Seq::<FsEntry>::empty()));
        assert(diff_changes(entry_apply(m, e), Seq::<FsEntry>::empty())
            == Seq::<Seq<char>>::empty());
        assert(diff_map(m, entries.push(e)) == entry_apply(m, e));
        assert(diff_changes(m, entries.push(e)) =~= diff_changes(m, entries) + (if entry_changed(
            diff_map(m, entries),
            e,
        ) {
            seq![e.path@]
        } else {
            Seq::<Seq<char>>::empty()
        }));
    } else {
        assert(entries.push(e).drop_first() =~= entries.drop_first().push(e));
        assert(entries.push(e)[0] == entries[0]);
        lemma_diff_snoc(entry_apply(m, entries[0]), entries.drop_first(), e);
        assert(diff_map(m, entries.push(e)) == diff_map(
            entry_apply(m, entries.push(e)[0]),
            entries.push(e).drop_first(),
        ));
        assert(diff_changes(m, entries.push(e)) == (if entry_changed(m, entries[0]) {
            seq![entries[0].path@]
        } else {
            Seq::<Seq<char>>::empty()
        }) + diff_changes(entry_apply(m, entries[0]), entries.drop_first().push(e)));
        assert(diff_changes(m, entries.push(e)) =~= diff_changes(m, entries) + (if entry_changed(
            diff_map(m, entries),
            e,
        ) {
            seq![e.path@]
        } else {
            Seq::<Seq<char>>::empty()
        }));
    }
}

/// The client-side source of state pushes: it owns the snapshot the
/// diff engine updates on every poll.
pub struct StateFsTx {
    pub fs_states: Snapshot,
}

impl StateFsTx {
    /// A transmitter with a fresh, empty snapshot.
    pub fn new() -> (r: StateFsTx)
        ensures
            r.fs_states.wf(),
            r.fs_states@ == Map::<Seq<char>, Seq<char>>::empty(),
    {
        StateFsTx { fs_states: Snapshot::new() }
    }

    /// One diff pass: reports every created or modified path of the
    /// walk in order, updates the snapshot to the walk's current
    /// contents, and purges snapshot keys for vanished paths. Deleted
    /// paths are not reported.
    pub fn state_fs_changes(fs_states: &mut Snapshot, entries: &Vec<FsEntry>) -> (changes: Vec<
        String,
    >)
        requires
            old(fs_states).wf(),
        ensures
            final(fs_states).wf(),
            final(fs_states)@ == spec_fs_changes_map(old(fs_states)@, entries@),
            strs(changes@) == diff_changes(old(fs_states)@, entries@),
    {
        let ghost m0 = fs_states@;
        let mut changes: Vec<String> = Vec::new();
        let mut i: usize = 0;
        proof {
            assert(entries@.take(0) =~= Seq::<FsEntry>::empty());
            assert(strs(changes@) =~= Seq::<Seq<char>>::empty());
        }
        while i < entries.len()
            invariant
                i <= entries@.len(),
                fs_states.wf(),
                fs_states@ == diff_map(m0, entries@.take(i as int)),
                strs(changes@) == diff_changes(m0, entries@.take(i as int)),
            decreases entries@.len() - i,
        {
            let e = &entries[i];
            let ghost mcur = fs_states@;
            let changed: bool;
            if e.is_dir {
                let present = match fs_states.get(&e.path) {
                    Some(_) => true,
                    Option::None => false,
                };
                if !present {
                    fs_states.insert(e.path.clone(), String::new());
                    changed = true;
                } else {
                    changed = false;
                }
            } else {
                let same = match fs_states.get(&e.path) {
                    Some(v) => *v == e.content,
                    Option::None => false,
                };
                if !same {
                    fs_states.insert(e.path.clone(), e.content.clone());
                    changed = true;
                } else {
                    changed = false;
                }
            }
            proof {
                assert(changed == entry_changed(mcur, entries@[i as int]));
                assert(fs_states@ == entry_apply(mcur, entries@[i as int]));
            }
            let ghost prev_changes = changes@;
            if changed {
                changes.push(e.path.clone());
            }
            proof {
                lemma_diff_snoc(m0, entries@.take(i as int), entries@[i as int]);
                assert(entries@.take(i as int).push(entries@[i as int]) =~= entries@.take(
                    i as int + 1,
                ));
                if changed {
                    assert(changes@ =~= prev_changes.push(entries@[i as int].path));
                    assert(strs(changes@) =~= strs(prev_changes) + seq![entries@[i as int].path@]);
                } else {
                    assert(strs(changes@) =~= strs(prev_changes) + Seq::<Seq<char>>::empty());
                }
            }
            i += 1;
        }
        proof {
            assert(entries@.take(entries@.len() as int) =~= entries@);
        }
        fs_states.retain_paths(entries);
        changes
    }
}

/// The snapshot already tracks every path of the walk, with the
/// current content for every file.
pub open spec fn snapshot_covers(m: Map<Seq<char>, Seq<char>>, entries: Seq<FsEntry>) -> bool {
    forall|i: int| 0 <= i < entries.len() ==> m.contains_key((#[trigger] entries[i].path)@)
        && (!entries[i].is_dir ==> m[entries[i].path@] == entries[i].content@)
}

/// A walk the snapshot already covers reports nothing and leaves the
/// snapshot untouched.
pub proof fn lemma_unchanged_walk(m: Map<Seq<char>, Seq<char>>, entries: Seq<FsEntry>)
    requires
        snapshot_covers(m, entries),
    ensures
        diff_map(m, entries) == m,
        diff_changes(m, entries) == Seq::<Seq<char>>::empty(),
    decreases entries.len(),
{
    if entries.len() > 0 {
        assert(!entry_changed(m, entries[0]));
        assert(entry_apply(m, entries[0]) == m);
        assert(snapshot_covers(m, entries.drop_first())) by {
            assert(forall|i: int| 0 <= i < entries.drop_first().len()
                ==> entries.drop_first()[i] == entries[i + 1]);
        }
        lemma_unchanged_walk(m, entries.drop_first());
        assert(diff_changes(m, entries) =~= Seq::<Seq<char>>::empty());
    }
}

/// A walk never touches a snapshot key whose path it does not visit.
pub proof fn lemma_untouched_path(m: Map<Seq<char>, Seq<char>>, entries: Seq<FsEntry>, p: Seq<char>)
    requires
        forall|i: int| 0 <= i < entries.len() ==> (#[trigger] entries[i].path)@ != p,
    ensures
        diff_map(m, entries).contains_key(p) == m.contains_key(p),
        m.contains_key(p) ==> diff_map(m, entries)[p] == m[p],
    decreases entries.len(),
{
    if entries.len() > 0 {
        let m1 = entry_apply(m, entries[0]);
        assert(entries[0].path@ != p);
        assert(m1.contains_key(p) == m.contains_key(p));
        assert(m.contains_key(p) ==> m1[p] == m[p]);
        assert(forall|i: int| 0 <= i < entries.drop_first().len()
            ==> entries.drop_first()[i] == entries[i + 1]);
        lemma_untouched_path(m1, entries.drop_first(), p);
    }
}

/// After one pass over a duplicate-free walk, the snapshot covers the
/// walk: every path tracked, every file at its current content.
pub proof fn lemma_covers_after(m: Map<Seq<char>, Seq<char>>, entries: Seq<FsEntry>)
    requires
        unique_paths(entries),
    ensures
        snapshot_covers(diff_map(m, entries), entries),
    decreases entries.len(),
{
    if entries.len() > 0 {
        let e0 = entries[0];
        let m1 = entry_apply(m, e0);
        let rest = entries.drop_first();
        assert(forall|i: int| 0 <= i < rest.len() ==> rest[i] == entries[i + 1]);
        assert(unique_paths(rest));
        lemma_covers_after(m1, rest);
        let dm = diff_map(m1, rest);
        assert(m1.contains_key(e0.path@));
        assert(!e0.is_dir ==> m1[e0.path@] == e0.content@);
        assert(forall|i: int| 0 <= i < rest.len() ==> (#[trigger] rest[i].path)@ != e0.path@);
        lemma_untouched_path(m1, rest, e0.path@);
        assert(dm.contains_key(e0.path@) && (!e0.is_dir ==> dm[e0.path@] == e0.content@));
        assert forall|i: int| 0 <= i < entries.len() implies dm.contains_key(
            (#[trigger] entries[i].path)@,
        ) && (!entries[i].is_dir ==> dm[entries[i].path@] == entries[i].content@) by {
            if i > 0 {
                assert(rest[i - 1] == entries[i]);
            }
        }
    }
}

/// Running a second pass with no change between the passes reports
/// nothing and leaves the snapshot exactly as the first pass left it.
pub proof fn lemma_diff_idempotent(m: Map<Seq<char>, Seq<char>>, entries: Seq<FsEntry>)
    requires
        unique_paths(entries),
    ensures
        diff_changes(spec_fs_changes_map(m, entries), entries) == Seq::<Seq<char>>::empty(),
        spec_fs_changes_map(spec_fs_changes_map(m, entries), entries) == spec_fs_changes_map(
            m,
            entries,
        ),
{
    let dm = diff_map(m, entries);
    let m1 = prune_map(dm, entries);
    lemma_covers_after(m, entries);
    assert(snapshot_covers(m1, entries)) by {
        assert forall|i: int| 0 <= i < entries.len() implies m1.contains_key(
            (#[trigger] entries[i].path)@,
        ) && (!entries[i].is_dir ==> m1[entries[i].path@] == entries[i].content@) by {
            assert(has_path(entries, entries[i].path@));
        }
    }
    lemma_unchanged_walk(m1, entries);
    assert(prune_map(m1, entries) =~= m1);
}

/// Every path of a duplicate-free walk that the snapshot does not yet
/// track is reported, in walk order; under a fresh root that is every
/// path of the walk.
pub proof fn lemma_diff_complete_fresh(m: Map<Seq<char>, Seq<char>>, entries: Seq<FsEntry>)
    requires
        unique_paths(entries),
        forall|i: int| 0 <= i < entries.len() ==> !m.contains_key((#[trigger] entries[i].path)@),
    ensures
        diff_changes(m, entries) == Seq::new(entries.len(), |i: int| entries[i].path@),
    decreases entries.len(),
{
    if entries.len() == 0 {
        assert(diff_changes(m, entries) =~= Seq::new(entries.len(), |i: int| entries[i].path@));
    } else {
        let e0 = entries[0];
        assert(entry_changed(m, e0));
        let m1 = entry_apply(m, e0);
        let rest = entries.drop_first();
        assert(forall|i: int| 0 <= i < rest.len() ==> rest[i] == entries[i + 1]);
        assert(unique_paths(rest));
        assert(forall|i: int| 0 <= i < rest.len()
            ==> !m1.contains_key((#[trigger] rest[i].path)@));
        lemma_diff_complete_fresh(m1, rest);
        assert(diff_changes(m, entries) =~= Seq::new(entries.len(), |i: int| entries[i].path@));
    }
}

/// When exactly one file of the walk differs from the snapshot, one
/// pass reports exactly that file's path.
pub proof fn lemma_diff_update(m: Map<Seq<char>, Seq<char>>, entries: Seq<FsEntry>, k: int)
    requires
        unique_paths(entries),
        0 <= k < entries.len(),
        forall|i: int| 0 <= i < entries.len() && i != k ==> m.contains_key(
            (#[trigger] entries[i].path)@,
        ) && (!entries[i].is_dir ==> m[entries[i].path@] == entries[i].content@),
        !entries[k].is_dir,
        m.contains_key(entries[k].path@),
        m[entries[k].path@] != entries[k].content@,
    ensures
        diff_changes(m, entries) == seq![entries[k].path@],
    decreases entries.len(),
{
    let e0 = entries[0];
    let rest = entries.drop_first();
    assert(forall|i: int| 0 <= i < rest.len() ==> rest[i] == entries[i + 1]);
    assert(unique_paths(rest));
    if k == 0 {
        assert(entry_changed(m, e0));
        let m1 = entry_apply(m, e0);
        assert(m1 == m.insert(e0.path@, e0.content@));
        assert(snapshot_covers(m1, rest)) by {
            assert forall|i: int| 0 <= i < rest.len() implies m1.contains_key(
                (#[trigger] rest[i].path)@,
            ) && (!rest[i].is_dir ==> m1[rest[i].path@] == rest[i].content@) by {
                assert(rest[i] == entries[i + 1]);
                assert(entries[i + 1].path@ != e0.path@);
            }
        }
        lemma_unchanged_walk(m1, rest);
        assert(diff_changes(m, entries) =~= seq![entries[k].path@]);
    } else {
        assert(!entry_changed(m, e0));
        assert(entry_apply(m, e0) == m);
        assert(rest[k - 1] == entries[k]);
        lemma_diff_update(m, rest, k - 1);
        assert(diff_changes(m, entries) =~= seq![entries[k].path@]);
    }
}

/// After a pass, the snapshot tracks no path the walk no longer
/// visits: a deleted file's entry is purged, silently.
pub proof fn lemma_diff_purges(m: Map<Seq<char>, Seq<char>>, entries: Seq<FsEntry>, p: Seq<char>)
    requires
        !has_path(entries, p),
    ensures
        !spec_fs_changes_map(m, entries).contains_key(p),
{
}

/// A walk entry whose path the snapshot does not track is reported:
/// recreating a purged file is seen again, whatever its content.
pub proof fn lemma_diff_reports_new(m: Map<Seq<char>, Seq<char>>, entries: Seq<FsEntry>, k: int)
    requires
        unique_paths(entries),
        0 <= k < entries.len(),
        !m.contains_key(entries[k].path@),
    ensures
        diff_changes(m, entries).contains(entries[k].path@),
    decreases entries.len(),
{
    let e0 = entries[0];
    let rest = entries.drop_first();
    assert(forall|i: int| 0 <= i < rest.len() ==> rest[i] == entries[i + 1]);
    assert(unique_paths(rest));
    if k == 0 {
        assert(entry_changed(m, e0));
        assert(diff_changes(m, entries)[0] == e0.path@);
    } else {
        let m1 = entry_apply(m, e0);
        assert(e0.path@ != entries[k].path@);
        assert(!m1.contains_key(entries[k].path@));
        assert(rest[k - 1] == entries[k]);
        lemma_diff_reports_new(m1, rest, k - 1);
        let tail = diff_changes(m1, rest);
        let j = choose|j: int| 0 <= j < tail.len() && tail[j] == entries[k].path@;
        let head: Seq<Seq<char>> = if entry_changed(m, e0) {
            seq![e0.path@]
        } else {
            Seq::empty()
        };
        assert(diff_changes(m, entries) == head + tail);
        assert(diff_changes(m, entries)[head.len() + j] == entries[k].path@);
    }
}

/// Whether some entry of the walk has exactly this path.
pub fn contains_path(entries: &Vec<FsEntry>, p: &String) -> (r: bool)
    ensures
        r == has_path(entries@, p@),
{
    let mut i: usize = 0;
    while i < entries.len()
        invariant
            i <= entries@.len(),
            forall|j: int| 0 <= j < i ==> (#[trigger] entries@[j].path)@ != p@,
        decreases entries@.len() - i,
    {
        if entries[i].path == *p {
            return true;
        }
        i += 1;
    }
    false
}

} // verus!
