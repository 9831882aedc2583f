//! An in-memory index of the entries loaded from a hash tree file: by hash, by path, and in
//! load order.

use crate::hash::{GeneralHash, GeneralHashType, HashView};
use crate::path::{FilePath, PathView};
use vstd::prelude::*;

verus! {

/// An entry of a hash tree file as the index sees it.
pub trait TreeEntry: DeepView + Sized {
    /// The path of an entry.
    spec fn view_path(v: Self::V) -> PathView;

    /// The hash of an entry.
    spec fn view_hash(v: Self::V) -> HashView;

    /// Whether an entry is of the type "other", which may carry the `NULL` hash.
    spec fn view_is_other(v: Self::V) -> bool;

    fn entry_path(&self) -> (r: &FilePath)
        ensures
            r@ == Self::view_path(self.deep_view()),
    ;

    fn entry_hash(&self) -> (r: &GeneralHash)
        ensures
            r@ == Self::view_hash(self.deep_view()),
    ;

    fn entry_is_other(&self) -> (r: bool)
        ensures
            r == Self::view_is_other(self.deep_view()),
    ;

    fn same_entry(&self, other: &Self) -> (r: bool)
        ensures
            r == (self.deep_view() == other.deep_view()),
    ;

    fn duplicate(&self) -> (r: Self)
        ensures
            r.deep_view() == self.deep_view(),
    ;
}

/// The entries that share one hash, in load order.
pub struct HashGroup<E> {
    /// The shared hash.
    pub hash: GeneralHash,
    /// The entries with that hash.
    pub entries: Vec<E>,
}

/// Whether an entry loaded from a file whose header names `header_type` is kept: its hash
/// must be of the header's type, or it is an entry of type "other" with the `NULL` hash.
pub open spec fn spec_hash_type_accepted(
    header_type: GeneralHashType,
    entry_type: GeneralHashType,
    is_other: bool,
) -> bool {
    entry_type == header_type || (is_other && entry_type == GeneralHashType::NULL)
}

/// The index of loaded entries. Each of the three views is kept only when it is enabled.
pub struct EntryIndex<E> {
    /// The entries grouped by hash.
    pub file_by_hash: Vec<HashGroup<E>>,
    /// The entries by path: one per path, the last one loaded.
    pub file_by_path: Vec<E>,
    /// All entries in load order, without those replaced by a later entry of the same path.
    pub all_entries: Vec<E>,
    /// Whether entries are grouped by hash.
    pub enable_file_by_hash: bool,
    /// Whether entries are kept by path.
    pub enable_file_by_path: bool,
    /// Whether the list of all entries is kept.
    pub enable_all_entry_list: bool,
}

/// Whether a path occurs among the keys of a list of entries.
pub open spec fn has_path<E: TreeEntry>(s: Seq<E::V>, p: PathView) -> bool {
    exists|i: int| 0 <= i < s.len() && E::view_path(s[i]) == p
}

/// The entry of a list whose path is `p`.
pub open spec fn entry_at_path<E: TreeEntry>(s: Seq<E::V>, p: PathView) -> E::V {
    s[choose|i: int| 0 <= i < s.len() && E::view_path(s[i]) == p]
}

/// The entries of a list keyed by their paths.
pub open spec fn path_map<E: TreeEntry>(s: Seq<E::V>) -> Map<PathView, E::V> {
    Map::new(|p: PathView| has_path::<E>(s, p), |p: PathView| entry_at_path::<E>(s, p))
}

/// No two entries of a list share a path.
pub open spec fn paths_distinct<E: TreeEntry>(s: Seq<E::V>) -> bool {
    forall|i: int, j: int|
        0 <= i < s.len() && 0 <= j < s.len() && i != j ==> E::view_path(s[i]) != E::view_path(
            s[j],
        )
}

impl<E: TreeEntry> HashGroup<E> {
    /// The hash and the entries of the group.
    pub open spec fn group_view(&self) -> (HashView, Seq<E::V>) {
        (self.hash@, self.entries.deep_view())
    }
}

/// Whether a hash occurs among the groups.
pub open spec fn has_hash<E: TreeEntry>(g: Seq<HashGroup<E>>, h: HashView) -> bool {
    exists|i: int| 0 <= i < g.len() && g[i].hash@ == h
}

/// The entries of the group whose hash is `h`.
pub open spec fn entries_with_hash<E: TreeEntry>(g: Seq<HashGroup<E>>, h: HashView) -> Seq<E::V> {
    g[choose|i: int| 0 <= i < g.len() && g[i].hash@ == h].entries.deep_view()
}

/// The groups as a map from hash to entries.
pub open spec fn hash_map<E: TreeEntry>(g: Seq<HashGroup<E>>) -> Map<HashView, Seq<E::V>> {
    Map::new(|h: HashView| has_hash(g, h), |h: HashView| entries_with_hash(g, h))
}

/// Replacing the entry of a path by another entry of the same path replaces it in the map.
proof fn lemma_path_map_update<E: TreeEntry>(s: Seq<E::V>, i: int, e: E::V)
    requires
        paths_distinct::<E>(s),
        0 <= i < s.len(),
        E::view_path(e) == E::view_path(s[i]),
    ensures
        paths_distinct::<E>(s.update(i, e)),
        path_map::<E>(s.update(i, e)) == path_map::<E>(s).insert(E::view_path(e), e),
        path_map::<E>(s).contains_key(E::view_path(e)),
        path_map::<E>(s)[E::view_path(e)] == s[i],
{
    let t = s.update(i, e);
    let p = E::view_path(e);
    assert(has_path::<E>(s, p));
    assert forall|q: PathView| #[trigger] has_path::<E>(t, q) == has_path::<E>(s, q) by {
        if has_path::<E>(t, q) {
            let k = choose|k: int| 0 <= k < t.len() && E::view_path(t[k]) == q;
            assert(E::view_path(s[k]) == q);
        }
        if has_path::<E>(s, q) {
            let k = choose|k: int| 0 <= k < s.len() && E::view_path(s[k]) == q;
            assert(E::view_path(t[k]) == q);
        }
    }
    assert forall|q: PathView| has_path::<E>(t, q) implies #[trigger] entry_at_path::<E>(t, q) == (
    if q == p {
        e
    } else {
        entry_at_path::<E>(s, q)
    }) by {
        let k = choose|k: int| 0 <= k < t.len() && E::view_path(t[k]) == q;
        let m = choose|k: int| 0 <= k < s.len() && E::view_path(s[k]) == q;
        if q == p {
            assert(k == i);
        } else {
            assert(k == m);
        }
    }
    assert(path_map::<E>(t) =~= path_map::<E>(s).insert(p, e));
    let k = choose|k: int| 0 <= k < s.len() && E::view_path(s[k]) == p;
    assert(k == i);
}

/// Appending an entry of a new path adds it to the map.
proof fn lemma_path_map_push<E: TreeEntry>(s: Seq<E::V>, e: E::V)
    requires
        paths_distinct::<E>(s),
        !has_path::<E>(s, E::view_path(e)),
    ensures
        paths_distinct::<E>(s.push(e)),
        path_map::<E>(s.push(e)) == path_map::<E>(s).insert(E::view_path(e), e),
        !path_map::<E>(s).contains_key(E::view_path(e)),
{
    let t = s.push(e);
    let p = E::view_path(e);
    assert forall|q: PathView| #[trigger] has_path::<E>(t, q) == (has_path::<E>(s, q) || q == p) by {
        if has_path::<E>(t, q) {
            let k = choose|k: int| 0 <= k < t.len() && E::view_path(t[k]) == q;
            if k < s.len() {
                assert(E::view_path(s[k]) == q);
            }
        }
        if has_path::<E>(s, q) {
            let k = choose|k: int| 0 <= k < s.len() && E::view_path(s[k]) == q;
            assert(E::view_path(t[k]) == q);
        }
        if q == p {
            assert(E::view_path(t[s.len() as int]) == q);
        }
    }
    assert forall|q: PathView| has_path::<E>(t, q) implies #[trigger] entry_at_path::<E>(t, q) == (
    if q == p {
        e
    } else {
        entry_at_path::<E>(s, q)
    }) by {
        let k = choose|k: int| 0 <= k < t.len() && E::view_path(t[k]) == q;
        if q == p {
            assert(k == s.len());
        } else {
            let m = choose|k: int| 0 <= k < s.len() && E::view_path(s[k]) == q;
            assert(k == m);
        }
    }
    assert(path_map::<E>(t) =~= path_map::<E>(s).insert(p, e));
}

/// Replacing the group of a hash by another group of the same hash replaces it in the map.
proof fn lemma_hash_map_update<E: TreeEntry>(g: Seq<HashGroup<E>>, i: int, ng: HashGroup<E>)
    requires
        forall|a: int, b: int|
            0 <= a < g.len() && 0 <= b < g.len() && a != b ==> g[a].hash@ != g[b].hash@,
        0 <= i < g.len(),
        ng.hash@ == g[i].hash@,
    ensures
        hash_map(g.update(i, ng)) == hash_map(g).insert(ng.hash@, ng.entries.deep_view()),
        hash_map(g).contains_key(ng.hash@),
        hash_map(g)[ng.hash@] == g[i].entries.deep_view(),
{
    let t = g.update(i, ng);
    let h = ng.hash@;
    assert(has_hash(g, h));
    assert forall|q: HashView| #[trigger] has_hash(t, q) == has_hash(g, q) by {
        if has_hash(t, q) {
            let k = choose|k: int| 0 <= k < t.len() && t[k].hash@ == q;
            assert(g[k].hash@ == q);
        }
        if has_hash(g, q) {
            let k = choose|k: int| 0 <= k < g.len() && g[k].hash@ == q;
            assert(t[k].hash@ == q);
        }
    }
    assert forall|q: HashView| has_hash(t, q) implies #[trigger] entries_with_hash(t, q) == (
    if q == h {
        ng.entries.deep_view()
    } else {
        entries_with_hash(g, q)
    }) by {
        let k = choose|k: int| 0 <= k < t.len() && t[k].hash@ == q;
        let m = choose|k: int| 0 <= k < g.len() && g[k].hash@ == q;
        if q == h {
            assert(k == i);
        } else {
            assert(k == m);
        }
    }
    assert(hash_map(t) =~= hash_map(g).insert(h, ng.entries.deep_view()));
    let k = choose|k: int| 0 <= k < g.len() && g[k].hash@ == h;
    assert(k == i);
}

/// Appending a group of a new hash adds it to the map.
proof fn lemma_hash_map_push<E: TreeEntry>(g: Seq<HashGroup<E>>, ng: HashGroup<E>)
    requires
        forall|a: int, b: int|
            0 <= a < g.len() && 0 <= b < g.len() && a != b ==> g[a].hash@ != g[b].hash@,
        !has_hash(g, ng.hash@),
    ensures
        hash_map(g.push(ng)) == hash_map(g).insert(ng.hash@, ng.entries.deep_view()),
        !hash_map(g).contains_key(ng.hash@),
{
    let t = g.push(ng);
    let h = ng.hash@;
    assert forall|q: HashView| #[trigger] has_hash(t, q) == (has_hash(g, q) || q == h) by {
        if has_hash(t, q) {
            let k = choose|k: int| 0 <= k < t.len() && t[k].hash@ == q;
            if k < g.len() {
                assert(g[k].hash@ == q);
            }
        }
        if has_hash(g, q) {
            let k = choose|k: int| 0 <= k < g.len() && g[k].hash@ == q;
            assert(t[k].hash@ == q);
        }
        if q == h {
            assert(t[g.len() as int].hash@ == q);
        }
    }
    assert forall|q: HashView| has_hash(t, q) implies #[trigger] entries_with_hash(t, q) == (
    if q == h {
        ng.entries.deep_view()
    } else {
        entries_with_hash(g, q)
    }) by {
        let k = choose|k: int| 0 <= k < t.len() && t[k].hash@ == q;
        if q == h {
            assert(k == g.len());
        } else {
            let m = choose|k: int| 0 <= k < g.len() && g[k].hash@ == q;
            assert(k == m);
        }
    }
    assert(hash_map(t) =~= hash_map(g).insert(h, ng.entries.deep_view()));
}

/// The mathematical state of an index: the enabled views and their contents.
pub struct IndexState<V> {
    pub enable_file_by_hash: bool,
    pub enable_file_by_path: bool,
    pub enable_all_entry_list: bool,
    pub by_hash: Map<HashView, Seq<V>>,
    pub by_path: Map<PathView, V>,
    pub all: Seq<V>,
}

/// The state of an index after an entry `e` was added to it.
pub open spec fn spec_insert<E: TreeEntry>(s: IndexState<E::V>, e: E::V) -> IndexState<E::V> {
    let h = E::view_hash(e);
    let p = E::view_path(e);
    IndexState {
        by_hash: if s.enable_file_by_hash {
            s.by_hash.insert(
                h,
                if s.by_hash.contains_key(h) {
                    s.by_hash[h]
                } else {
                    Seq::<E::V>::empty()
                }.push(e),
            )
        } else {
            s.by_hash
        },
        by_path: if s.enable_file_by_path {
            s.by_path.insert(p, e)
        } else {
            s.by_path
        },
        all: if s.enable_all_entry_list {
            if s.enable_file_by_path && s.by_path.contains_key(p) {
                s.all.filter(|x: E::V| x != s.by_path[p]).push(e)
            } else {
                s.all.push(e)
            }
        } else {
            s.all
        },
        ..s
    }
}

/// The state of an index after the entries `es` were added to it in order.
pub open spec fn spec_insert_all<E: TreeEntry>(s: IndexState<E::V>, es: Seq<E::V>) -> IndexState<
    E::V,
>
    decreases es.len(),
{
    if es.len() == 0 {
        s
    } else {
        spec_insert_all::<E>(spec_insert::<E>(s, es[0]), es.drop_first())
    }
}

/// The first `n` values of `s` whose flag in `keep` is set, in order.
pub open spec fn spec_select<V>(s: Seq<V>, keep: Seq<bool>, n: int) -> Seq<V>
    decreases n,
{
    if n <= 0 {
        Seq::empty()
    } else if keep[n - 1] {
        spec_select(s, keep, n - 1).push(s[n - 1])
    } else {
        spec_select(s, keep, n - 1)
    }
}

impl<E: TreeEntry> EntryIndex<E> {
    /// The state of the index.
    pub open spec fn state(&self) -> IndexState<E::V> {
        IndexState {
            enable_file_by_hash: self.enable_file_by_hash,
            enable_file_by_path: self.enable_file_by_path,
            enable_all_entry_list: self.enable_all_entry_list,
            by_hash: self.by_hash(),
            by_path: self.by_path(),
            all: self.all(),
        }
    }

    /// The entries by path.
    pub open spec fn by_path(&self) -> Map<PathView, E::V> {
        path_map::<E>(self.file_by_path.deep_view())
    }

    /// The entries by hash.
    pub open spec fn by_hash(&self) -> Map<HashView, Seq<E::V>> {
        hash_map::<E>(self.file_by_hash@)
    }

    /// All entries.
    pub open spec fn all(&self) -> Seq<E::V> {
        self.all_entries.deep_view()
    }

    /// The index is well formed: paths and hashes occur once each as keys, and every group
    /// holds only entries of its hash.
    pub open spec fn wf(&self) -> bool {
        &&& paths_distinct::<E>(self.file_by_path.deep_view())
        &&& forall|i: int, j: int|
            0 <= i < self.file_by_hash@.len() && 0 <= j < self.file_by_hash@.len() && i != j
                ==> self.file_by_hash@[i].hash@ != self.file_by_hash@[j].hash@
        &&& forall|i: int, k: int|
            0 <= i < self.file_by_hash@.len() && 0 <= k < self.file_by_hash@[i].entries@.len()
                ==> E::view_hash(#[trigger] self.file_by_hash@[i].entries.deep_view()[k])
                == self.file_by_hash@[i].hash@
    }

    /// An empty index with the given views enabled.
    pub fn new(
        enable_file_by_hash: bool,
        enable_file_by_path: bool,
        enable_all_entry_list: bool,
    ) -> (r: EntryIndex<E>)
        ensures
            r.wf(),
            r.by_path() == Map::<PathView, E::V>::empty(),
            r.by_hash() == Map::<HashView, Seq<E::V>>::empty(),
            r.all() == Seq::<E::V>::empty(),
            r.enable_file_by_hash == enable_file_by_hash,
            r.enable_file_by_path == enable_file_by_path,
            r.enable_all_entry_list == enable_all_entry_list,
    {
        let r = EntryIndex {
            file_by_hash: Vec::new(),
            file_by_path: Vec::new(),
            all_entries: Vec::new(),
            enable_file_by_hash,
            enable_file_by_path,
            enable_all_entry_list,
        };
        assert(r.by_path() =~= Map::<PathView, E::V>::empty());
        assert(r.by_hash() =~= Map::<HashView, Seq<E::V>>::empty());
        assert(r.all() =~= Seq::<E::V>::empty());
        r
    }
}

impl<E: TreeEntry> EntryIndex<E> {
    /// The position of the entry with path `p` in the list by path.
    fn find_path(&self, p: &FilePath) -> (r: Option<usize>)
        ensures
            r matches Some(i) ==> i < self.file_by_path@.len() && E::view_path(
                self.file_by_path.deep_view()[i as int],
            ) == p@,
            r is None ==> !has_path::<E>(self.file_by_path.deep_view(), p@),
    {
        let mut i: usize = 0;
        while i < self.file_by_path.len()
            invariant
                i <= self.file_by_path@.len(),
                forall|k: int|
                    0 <= k < i ==> E::view_path(#[trigger] self.file_by_path.deep_view()[k]) != p@,
            decreases self.file_by_path@.len() - i,
        {
            if self.file_by_path[i].entry_path().same_as(p) {
                return Some(i);
            }
            i = i + 1;
        }
        None
    }

    /// The position of the group of hash `h`.
    fn find_hash(&self, h: &GeneralHash) -> (r: Option<usize>)
        ensures
            r matches Some(i) ==> i < self.file_by_hash@.len() && self.file_by_hash@[i as int].hash@
                == h@,
            r is None ==> !has_hash(self.file_by_hash@, h@),
    {
        let mut i: usize = 0;
        while i < self.file_by_hash.len()
            invariant
                i <= self.file_by_hash@.len(),
                forall|k: int| 0 <= k < i ==> (#[trigger] self.file_by_hash@[k]).hash@ != h@,
            decreases self.file_by_hash@.len() - i,
        {
            if self.file_by_hash[i].hash.same_as(h) {
                return Some(i);
            }
            i = i + 1;
        }
        None
    }

    /// Adds an entry to the group of its hash.
    fn insert_by_hash(&mut self, entry: E)
        requires
            old(self).wf(),
        ensures
            final(self).wf(),
            final(self).by_hash() == old(self).by_hash().insert(
                E::view_hash(entry.deep_view()),
                if old(self).by_hash().contains_key(E::view_hash(entry.deep_view())) {
                    old(self).by_hash()[E::view_hash(entry.deep_view())]
                } else {
                    Seq::<E::V>::empty()
                }.push(entry.deep_view()),
            ),
            final(self).file_by_path == old(self).file_by_path,
            final(self).all_entries == old(self).all_entries,
            final(self).enable_file_by_hash == old(self).enable_file_by_hash,
            final(self).enable_file_by_path == old(self).enable_file_by_path,
            final(self).enable_all_entry_list == old(self).enable_all_entry_list,
    {
        let ghost ev = entry.deep_view();
        let ghost h = E::view_hash(ev);
        let ghost g0 = self.file_by_hash@;
        match self.find_hash(entry.entry_hash()) {
            Some(i) => {
                let mut group = self.file_by_hash.remove(i);
                let ghost before = group.entries.deep_view();
                group.entries.push(entry);
                assert(group.entries.deep_view() =~= before.push(ev));
                self.file_by_hash.insert(i, group);
                assert(self.file_by_hash@ =~= g0.update(i as int, group));
                proof {
                    lemma_hash_map_update(g0, i as int, group);
                }
                assert forall|a: int, k: int|
                    0 <= a < self.file_by_hash@.len() && 0 <= k
                        < self.file_by_hash@[a].entries@.len() implies E::view_hash(
                    #[trigger] self.file_by_hash@[a].entries.deep_view()[k],
                ) == self.file_by_hash@[a].hash@ by {
                    if a != i {
                        assert(self.file_by_hash@[a] == g0[a]);
                    } else if k < before.len() {
                        assert(self.file_by_hash@[a].entries.deep_view()[k] == before[k]);
                        assert(before[k] == g0[a].entries.deep_view()[k]);
                    }
                }
            },
            None => {
                let hash = entry.entry_hash().duplicate();
                let mut entries: Vec<E> = Vec::new();
                entries.push(entry);
                assert(entries.deep_view() =~= Seq::<E::V>::empty().push(ev));
                let group = HashGroup { hash, entries };
                self.file_by_hash.push(group);
                proof {
                    lemma_hash_map_push(g0, group);
                }
            },
        }
    }

    /// Sets the entry of the path of `entry`; returns the entry it replaces.
    fn insert_by_path(&mut self, entry: E) -> (r: Option<E>)
        requires
            old(self).wf(),
        ensures
            final(self).wf(),
            final(self).by_path() == old(self).by_path().insert(
                E::view_path(entry.deep_view()),
                entry.deep_view(),
            ),
            old(self).by_path().contains_key(E::view_path(entry.deep_view())) ==> (r matches Some(
                o,
            ) && o.deep_view() == old(self).by_path()[E::view_path(entry.deep_view())]),
            !old(self).by_path().contains_key(E::view_path(entry.deep_view())) ==> r is None,
            final(self).file_by_hash == old(self).file_by_hash,
            final(self).all_entries == old(self).all_entries,
            final(self).enable_file_by_hash == old(self).enable_file_by_hash,
            final(self).enable_file_by_path == old(self).enable_file_by_path,
            final(self).enable_all_entry_list == old(self).enable_all_entry_list,
    {
        let ghost ev = entry.deep_view();
        let ghost s0 = self.file_by_path.deep_view();
        match self.find_path(entry.entry_path()) {
            Some(i) => {
                let old_entry = self.file_by_path[i].duplicate();
                self.file_by_path.set(i, entry);
                assert(self.file_by_path.deep_view() =~= s0.update(i as int, ev));
                proof {
                    lemma_path_map_update::<E>(s0, i as int, ev);
                }
                Some(old_entry)
            },
            None => {
                self.file_by_path.push(entry);
                assert(self.file_by_path.deep_view() =~= s0.push(ev));
                proof {
                    lemma_path_map_push::<E>(s0, ev);
                }
                None
            },
        }
    }

    /// Removes every entry equal to `old_entry` from the list of all entries.
    fn remove_from_all(&mut self, old_entry: &E)
        ensures
            final(self).all() == old(self).all().filter(|x: E::V| x != old_entry.deep_view()),
            final(self).file_by_hash == old(self).file_by_hash,
            final(self).file_by_path == old(self).file_by_path,
            final(self).enable_file_by_hash == old(self).enable_file_by_hash,
            final(self).enable_file_by_path == old(self).enable_file_by_path,
            final(self).enable_all_entry_list == old(self).enable_all_entry_list,
    {
        let ghost pred = |x: E::V| x != old_entry.deep_view();
        let ghost s0 = self.all_entries.deep_view();
        let mut kept: Vec<E> = Vec::new();
        let mut i: usize = 0;
        assert(s0.subrange(0, 0).filter(pred) =~= Seq::<E::V>::empty()) by {
            reveal(Seq::filter);
        }
        while i < self.all_entries.len()
            invariant
                i <= self.all_entries@.len(),
                s0 == self.all_entries.deep_view(),
                pred == (|x: E::V| x != old_entry.deep_view()),
                kept.deep_view() == s0.subrange(0, i as int).filter(pred),
            decreases self.all_entries@.len() - i,
        {
            let ghost before = kept.deep_view();
            let ghost prefix = s0.subrange(0, i as int);
            assert(s0[i as int] == self.all_entries@[i as int].deep_view());
            proof {
                prefix.lemma_filter_push(s0[i as int], pred);
                assert(s0.subrange(0, i + 1) =~= prefix.push(s0[i as int]));
            }
            if !self.all_entries[i].same_entry(old_entry) {
                kept.push(self.all_entries[i].duplicate());
                assert(pred(s0[i as int]));
                assert(kept.deep_view() =~= before.push(s0[i as int]));
            } else {
                assert(!pred(s0[i as int]));
            }
            assert(kept.deep_view() == s0.subrange(0, i + 1).filter(pred));
            i = i + 1;
        }
        assert(s0.subrange(0, i as int) =~= s0);
        self.all_entries = kept;
    }

    /// Adds a loaded entry to every enabled view. An entry that replaces an earlier entry of
    /// the same path removes that earlier entry from the list of all entries.
    pub fn insert(&mut self, entry: E)
        requires
            old(self).wf(),
        ensures
            final(self).wf(),
            final(self).state() == spec_insert::<E>(old(self).state(), entry.deep_view()),
    {
        let ghost ev = entry.deep_view();
        if self.enable_file_by_hash {
            let copy = entry.duplicate();
            self.insert_by_hash(copy);
        }
        if self.enable_file_by_path {
            let copy = entry.duplicate();
            let replaced = self.insert_by_path(copy);
            if let Some(old_entry) = replaced {
                if self.enable_all_entry_list {
                    self.remove_from_all(&old_entry);
                }
            }
        }
        if self.enable_all_entry_list {
            let ghost before = self.all_entries.deep_view();
            self.all_entries.push(entry);
            assert(self.all_entries.deep_view() =~= before.push(ev));
        }
    }

    /// Adds the entries `entries` in order, see [EntryIndex::insert].
    pub fn insert_all(&mut self, entries: Vec<E>)
        requires
            old(self).wf(),
        ensures
            final(self).wf(),
            final(self).state() == spec_insert_all::<E>(old(self).state(), entries.deep_view()),
    {
        let ghost es = entries.deep_view();
        let ghost goal = spec_insert_all::<E>(self.state(), es);
        let mut source = entries;
        let mut entries: Vec<E> = Vec::new();
        let total = source.len();
        assert(es.len() == total);
        while source.len() > 0
            invariant
                source@.len() + entries@.len() == es.len(),
                forall|k: int| 0 <= k < source@.len() ==> #[trigger] source.deep_view()[k] == es[k],
                forall|k: int| 0 <= k < entries@.len() ==> #[trigger] entries.deep_view()[k] == es[es.len() - 1 - k],
            decreases source@.len(),
        {
            let ghost src0 = source@;
            let ghost ent0 = entries@;
            let ghost srcdv = source.deep_view();
            let ghost entdv = entries.deep_view();
            assert(source.deep_view()[source@.len() - 1] == es[source@.len() - 1]);
            let e = source.pop().unwrap();
            assert(e == src0.last());
            entries.push(e);
            assert forall|k: int| 0 <= k < entries@.len() implies #[trigger] entries.deep_view()[k] == es[es.len() - 1 - k] by {
                if k < entries@.len() - 1 {
                    assert(entries@[k] == ent0[k]);
                    assert(entdv[k] == ent0[k].deep_view());
                    assert(entdv[k] == es[es.len() - 1 - k]);
                }
            }
            assert forall|k: int| 0 <= k < source@.len() implies #[trigger] source.deep_view()[k] == es[k] by {
                assert(source@[k] == src0[k]);
                assert(srcdv[k] == src0[k].deep_view());
                assert(srcdv[k] == es[k]);
            }
        }
        let mut n: usize = 0;
        assert(es.skip(0) =~= es);
        while entries.len() > 0
            invariant
                self.wf(),
                n + entries@.len() == es.len(),
                es.len() <= usize::MAX,
                forall|k: int| 0 <= k < entries@.len() ==> #[trigger] entries.deep_view()[k] == es[es.len() - 1 - k],
                goal == spec_insert_all::<E>(self.state(), es.skip(n as int)),
            decreases entries@.len(),
        {
            let ghost ent0 = entries@;
            let ghost entdv = entries.deep_view();
            assert(entries.deep_view()[entries@.len() - 1] == es[n as int]);
            let e = entries.pop().unwrap();
            assert(e == ent0.last());
            assert(e.deep_view() == es[n as int]);
            assert(es.skip(n as int).drop_first() =~= es.skip(n + 1));
            self.insert(e);
            n = n + 1;
            assert forall|k: int| 0 <= k < entries@.len() implies #[trigger] entries.deep_view()[k] == es[es.len() - 1 - k] by {
                assert(entries@[k] == ent0[k]);
                assert(entdv[k] == ent0[k].deep_view());
                assert(entdv[k] == es[es.len() - 1 - k]);
            }
        }
        assert(es.skip(n as int) =~= Seq::<E::V>::empty());
    }

    /// Drops all groups by hash.
    pub fn empty_file_by_hash(&mut self)
        requires
            old(self).wf(),
        ensures
            final(self).wf(),
            final(self).by_hash() == Map::<HashView, Seq<E::V>>::empty(),
            final(self).file_by_path == old(self).file_by_path,
            final(self).all_entries == old(self).all_entries,
            final(self).enable_file_by_hash == old(self).enable_file_by_hash,
            final(self).enable_file_by_path == old(self).enable_file_by_path,
            final(self).enable_all_entry_list == old(self).enable_all_entry_list,
    {
        self.file_by_hash = Vec::new();
        assert(self.by_hash() =~= Map::<HashView, Seq<E::V>>::empty());
    }

    /// The entries of hash `h`, in load order, if any.
    pub fn with_hash(&self, h: &GeneralHash) -> (r: Option<&Vec<E>>)
        requires
            self.wf(),
        ensures
            match r {
                Some(v) => self.by_hash().contains_key(h@) && v.deep_view() == self.by_hash()[h@],
                None => !self.by_hash().contains_key(h@),
            },
    {
        match self.find_hash(h) {
            Some(i) => {
                proof {
                    let k = choose|k: int| 0 <= k < self.file_by_hash@.len() && self.file_by_hash@[k].hash@ == h@;
                    assert(k == i);
                }
                Some(&self.file_by_hash[i].entries)
            },
            None => None,
        }
    }

    /// Takes out the entries by path, leaving none: the entries taken have distinct paths and
    /// map them as the index did.
    pub fn take_file_by_path(&mut self) -> (r: Vec<E>)
        requires
            old(self).wf(),
        ensures
            final(self).wf(),
            final(self).by_path() == Map::<PathView, E::V>::empty(),
            paths_distinct::<E>(r.deep_view()),
            path_map::<E>(r.deep_view()) == old(self).by_path(),
            final(self).file_by_hash == old(self).file_by_hash,
            final(self).all_entries == old(self).all_entries,
            final(self).enable_file_by_hash == old(self).enable_file_by_hash,
            final(self).enable_file_by_path == old(self).enable_file_by_path,
            final(self).enable_all_entry_list == old(self).enable_all_entry_list,
    {
        let mut taken: Vec<E> = Vec::new();
        std::mem::swap(&mut taken, &mut self.file_by_path);
        assert(self.by_path() =~= Map::<PathView, E::V>::empty());
        taken
    }

    /// Drops all entries by path.
    pub fn empty_file_by_path(&mut self)
        requires
            old(self).wf(),
        ensures
            final(self).wf(),
            final(self).by_path() == Map::<PathView, E::V>::empty(),
            final(self).file_by_hash == old(self).file_by_hash,
            final(self).all_entries == old(self).all_entries,
            final(self).enable_file_by_hash == old(self).enable_file_by_hash,
            final(self).enable_file_by_path == old(self).enable_file_by_path,
            final(self).enable_all_entry_list == old(self).enable_all_entry_list,
    {
        self.file_by_path = Vec::new();
        assert(self.by_path() =~= Map::<PathView, E::V>::empty());
    }

    /// Drops the list of all entries.
    pub fn empty_entry_list(&mut self)
        requires
            old(self).wf(),
        ensures
            final(self).wf(),
            final(self).all() == Seq::<E::V>::empty(),
            final(self).file_by_hash == old(self).file_by_hash,
            final(self).file_by_path == old(self).file_by_path,
            final(self).enable_file_by_hash == old(self).enable_file_by_hash,
            final(self).enable_file_by_path == old(self).enable_file_by_path,
            final(self).enable_all_entry_list == old(self).enable_all_entry_list,
    {
        self.all_entries = Vec::new();
        assert(self.all() =~= Seq::<E::V>::empty());
    }
}


/// In a well formed index every entry grouped under a hash has that hash.
pub proof fn law_index_groups_share_hash<E: TreeEntry>(index: EntryIndex<E>)
    requires
        index.wf(),
    ensures
        forall|h: HashView, k: int| index.by_hash().contains_key(h) && 0 <= k < index.by_hash()[h].len()
            ==> E::view_hash(#[trigger] index.by_hash()[h][k]) == h,
{
    assert forall|h: HashView, k: int| index.by_hash().contains_key(h) && 0 <= k < index.by_hash()[h].len()
        implies E::view_hash(#[trigger] index.by_hash()[h][k]) == h by {
        let g = index.file_by_hash@;
        let i = choose|i: int| 0 <= i < g.len() && g[i].hash@ == h;
        assert(index.by_hash()[h] == g[i].entries.deep_view());
        assert(E::view_hash(g[i].entries.deep_view()[k]) == g[i].hash@);
    }
}

/// What an index holds after an entry is added: the entry is found under its path and last
/// under its hash; every other path and hash keeps what it had.
pub proof fn law_index_read_after_insert<E: TreeEntry>(s: IndexState<E::V>, e: E::V)
    ensures
        s.enable_file_by_path ==> spec_insert::<E>(s, e).by_path.contains_key(E::view_path(e))
            && spec_insert::<E>(s, e).by_path[E::view_path(e)] == e,
        s.enable_file_by_hash ==> spec_insert::<E>(s, e).by_hash.contains_key(E::view_hash(e))
            && spec_insert::<E>(s, e).by_hash[E::view_hash(e)].last() == e,
        forall|p: PathView| p != E::view_path(e) ==> (#[trigger] spec_insert::<E>(s, e).by_path.contains_key(p)
            == s.by_path.contains_key(p)) && (s.by_path.contains_key(p) ==> spec_insert::<E>(s, e).by_path[p] == s.by_path[p]),
        forall|h: HashView| h != E::view_hash(e) ==> (#[trigger] spec_insert::<E>(s, e).by_hash.contains_key(h)
            == s.by_hash.contains_key(h)) && (s.by_hash.contains_key(h) ==> spec_insert::<E>(s, e).by_hash[h] == s.by_hash[h]),
{
}


/// The list of all entries holds exactly the entries by path, one per path.
pub open spec fn spec_all_by_path<E: TreeEntry>(s: IndexState<E::V>) -> bool {
    &&& forall|i: int| 0 <= i < s.all.len() ==> s.by_path.contains_key(E::view_path(#[trigger] s.all[i]))
        && s.by_path[E::view_path(s.all[i])] == s.all[i]
    &&& forall|i: int, j: int|
        0 <= i < s.all.len() && 0 <= j < s.all.len() && i != j ==> E::view_path(#[trigger] s.all[i])
            != E::view_path(#[trigger] s.all[j])
    &&& forall|p: PathView| #[trigger] s.by_path.contains_key(p) ==> s.all.contains(s.by_path[p])
        && E::view_path(s.by_path[p]) == p
}

/// Filtering a list whose entries have distinct paths keeps entries of the list, with
/// distinct paths.
proof fn lemma_filter_keeps_distinct_paths<E: TreeEntry>(l: Seq<E::V>, pred: spec_fn(E::V) -> bool)
    requires
        forall|i: int, j: int|
            0 <= i < l.len() && 0 <= j < l.len() && i != j ==> E::view_path(#[trigger] l[i]) != E::view_path(#[trigger] l[j]),
    ensures
        forall|i: int| 0 <= i < l.filter(pred).len() ==> l.contains(#[trigger] l.filter(pred)[i]),
        forall|i: int, j: int|
            0 <= i < l.filter(pred).len() && 0 <= j < l.filter(pred).len() && i != j ==> E::view_path(
                #[trigger] l.filter(pred)[i],
            ) != E::view_path(#[trigger] l.filter(pred)[j]),
    decreases l.len(),
{
    reveal_with_fuel(Seq::filter, 1);
    if l.len() > 0 {
        let d = l.drop_last();
        lemma_filter_keeps_distinct_paths::<E>(d, pred);
        let f = l.filter(pred);
        let fd = d.filter(pred);
        assert forall|i: int| 0 <= i < f.len() implies l.contains(#[trigger] f[i]) by {
            if i < fd.len() {
                assert(f[i] == fd[i]);
                let k = choose|k: int| 0 <= k < d.len() && d[k] == fd[i];
                assert(l[k] == f[i]);
            } else {
                assert(f[i] == l[l.len() - 1]);
            }
        }
        assert forall|i: int, j: int| 0 <= i < f.len() && 0 <= j < f.len() && i != j implies E::view_path(
            #[trigger] f[i],
        ) != E::view_path(#[trigger] f[j]) by {
            if i < fd.len() && j < fd.len() {
                assert(f[i] == fd[i] && f[j] == fd[j]);
            } else if i < fd.len() {
                assert(f[i] == fd[i]);
                assert(f[j] == l[l.len() - 1]);
                let k = choose|k: int| 0 <= k < d.len() && d[k] == fd[i];
                assert(l[k] == fd[i]);
            } else {
                assert(f[j] == fd[j]);
                assert(f[i] == l[l.len() - 1]);
                let k = choose|k: int| 0 <= k < d.len() && d[k] == fd[j];
                assert(l[k] == fd[j]);
            }
        }
    }
}

/// An index that keeps both the entries by path and the list of all entries keeps them in
/// step: once the list holds exactly the entries by path, one per path, it still does after
/// an entry is added.
pub proof fn law_all_entries_follow_paths<E: TreeEntry>(s: IndexState<E::V>, e: E::V)
    requires
        s.enable_file_by_path,
        s.enable_all_entry_list,
        spec_all_by_path::<E>(s),
    ensures
        spec_all_by_path::<E>(spec_insert::<E>(s, e)),
{
    let p = E::view_path(e);
    let t = spec_insert::<E>(s, e);
    if s.by_path.contains_key(p) {
        let old_e = s.by_path[p];
        let pred = |x: E::V| x != old_e;
        let f = s.all.filter(pred);
        lemma_filter_keeps_distinct_paths::<E>(s.all, pred);
        s.all.filter_lemma(pred);
        assert(t.all == f.push(e));
        assert forall|i: int| 0 <= i < f.len() implies E::view_path(#[trigger] f[i]) != p by {
            let k = choose|k: int| 0 <= k < s.all.len() && s.all[k] == f[i];
            assert(pred(f[i]));
            assert(s.by_path[E::view_path(s.all[k])] == s.all[k]);
        }
        assert forall|i: int| 0 <= i < t.all.len() implies t.by_path.contains_key(E::view_path(#[trigger] t.all[i]))
            && t.by_path[E::view_path(t.all[i])] == t.all[i] by {
            if i < f.len() {
                assert(t.all[i] == f[i]);
                let k = choose|k: int| 0 <= k < s.all.len() && s.all[k] == f[i];
                assert(s.by_path[E::view_path(s.all[k])] == s.all[k]);
            }
        }
        assert forall|i: int, j: int| 0 <= i < t.all.len() && 0 <= j < t.all.len() && i != j implies E::view_path(
            #[trigger] t.all[i],
        ) != E::view_path(#[trigger] t.all[j]) by {
            if i < f.len() && j < f.len() {
                assert(t.all[i] == f[i] && t.all[j] == f[j]);
            } else if i < f.len() {
                assert(t.all[i] == f[i]);
            } else {
                assert(t.all[j] == f[j]);
            }
        }
        assert forall|q: PathView| #[trigger] t.by_path.contains_key(q) implies t.all.contains(t.by_path[q]) by {
            if q == p {
                assert(t.all[t.all.len() - 1] == e);
            } else {
                assert(s.all.contains(s.by_path[q]));
                let k = choose|k: int| 0 <= k < s.all.len() && s.all[k] == s.by_path[q];
                assert(pred(s.all[k])) by {
                    if s.all[k] == old_e {
                        assert(E::view_path(s.by_path[q]) == q);
                        assert(E::view_path(s.by_path[p]) == p);
                    }
                }
                assert(f.contains(s.all[k]));
                let m = choose|m: int| 0 <= m < f.len() && f[m] == s.all[k];
                assert(t.all[m] == f[m]);
            }
        }
    } else {
        assert forall|i: int| 0 <= i < s.all.len() implies E::view_path(#[trigger] s.all[i]) != p by {
            assert(s.by_path.contains_key(E::view_path(s.all[i])));
        }
        assert forall|i: int| 0 <= i < t.all.len() implies t.by_path.contains_key(E::view_path(#[trigger] t.all[i]))
            && t.by_path[E::view_path(t.all[i])] == t.all[i] by {
            if i < s.all.len() {
                assert(t.all[i] == s.all[i]);
            }
        }
        assert forall|i: int, j: int| 0 <= i < t.all.len() && 0 <= j < t.all.len() && i != j implies E::view_path(
            #[trigger] t.all[i],
        ) != E::view_path(#[trigger] t.all[j]) by {
            if i < s.all.len() && j < s.all.len() {
                assert(t.all[i] == s.all[i] && t.all[j] == s.all[j]);
            } else if i < s.all.len() {
                assert(t.all[i] == s.all[i]);
            } else {
                assert(t.all[j] == s.all[j]);
            }
        }
        assert forall|q: PathView| #[trigger] t.by_path.contains_key(q) implies t.all.contains(t.by_path[q]) by {
            if q == p {
                assert(t.all[t.all.len() - 1] == e);
            } else {
                let k = choose|k: int| 0 <= k < s.all.len() && s.all[k] == s.by_path[q];
                assert(t.all[k] == s.all[k]);
            }
        }
    }
}

/// Adding entries one after the other keeps the list of all entries in step with the
/// entries by path (see `law_all_entries_follow_paths`).
pub proof fn law_all_entries_follow_paths_after_loading<E: TreeEntry>(s: IndexState<E::V>, es: Seq<E::V>)
    requires
        s.enable_file_by_path,
        s.enable_all_entry_list,
        spec_all_by_path::<E>(s),
    ensures
        spec_all_by_path::<E>(spec_insert_all::<E>(s, es)),
    decreases es.len(),
{
    if es.len() > 0 {
        law_all_entries_follow_paths::<E>(s, es[0]);
        law_all_entries_follow_paths_after_loading::<E>(spec_insert::<E>(s, es[0]), es.drop_first());
    }
}

} // verus!
