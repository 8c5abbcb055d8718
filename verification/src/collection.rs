//! Sets and maps of paths.
use vstd::prelude::*;

use crate::path::{FsPath, PartView};

verus! {

/// Whether no two of the keys are the same path.
pub open spec fn distinct_paths(keys: Seq<Seq<PartView>>) -> bool {
    forall|i: int, j: int| 0 <= i < j < keys.len() ==> #[trigger] keys[i] != #[trigger] keys[j]
}

/// A map from paths to values.
pub struct PathMap<V> {
    entries: Vec<(FsPath, V)>,
}

impl<V> View for PathMap<V> {
    type V = Map<Seq<PartView>, V>;

    /// The entries, as a map.
    closed spec fn view(&self) -> Map<Seq<PartView>, V> {
        Map::new(
            |path: Seq<PartView>| self.keys().contains(path),
            |path: Seq<PartView>| self.entries@[self.keys().index_of(path)].1,
        )
    }
}

impl<V> PathMap<V> {
    /// The paths, in the order in which they came in.
    pub closed spec fn keys(&self) -> Seq<Seq<PartView>> {
        Seq::new(self.entries@.len(), |i: int| self.entries@[i].0@)
    }

    /// No path has two entries.
    pub closed spec fn wf(&self) -> bool {
        distinct_paths(self.keys())
    }

    proof fn view_at(&self, i: int)
        requires
            self.wf(),
            0 <= i < self.entries@.len(),
        ensures
            self@.dom().contains(self.entries@[i].0@),
            self@[self.entries@[i].0@] == self.entries@[i].1,
            self.keys()[i] == self.entries@[i].0@,
    {
        let path = self.keys()[i];
        assert(self.keys().contains(path));
        let k = self.keys().index_of(path);
        assert(self.keys()[k] == path);
    }

    /// The paths of the map are those of its entries.
    pub proof fn keys_are_domain(&self)
        requires
            self.wf(),
        ensures
            distinct_paths(self.keys()),
            forall|path: Seq<PartView>|
                self@.dom().contains(path) <==> #[trigger] self.keys().contains(path),
            self@.dom().finite(),
            self@.dom().len() == self.keys().len(),
    {
        assert(self.keys().no_duplicates());
        self.keys().unique_seq_to_set();
        assert(self@.dom() =~= self.keys().to_set());
    }

    /// A map without entries.
    pub fn new() -> (map: Self)
        ensures
            map.wf(),
            map@ == Map::<Seq<PartView>, V>::empty(),
    {
        let map = PathMap { entries: Vec::new() };
        assert(map@ =~= Map::<Seq<PartView>, V>::empty());
        map
    }

    /// How many entries there are.
    pub fn len(&self) -> (n: usize)
        ensures
            n == self.keys().len(),
    {
        self.entries.len()
    }

    /// The path of the entry at position `i`.
    pub fn key(&self, i: usize) -> (path: &FsPath)
        requires
            i < self.keys().len(),
        ensures
            path@ == self.keys()[i as int],
    {
        &self.entries[i].0
    }

    /// The value of the entry at position `i`.
    pub fn value(&self, i: usize) -> (value: &V)
        requires
            self.wf(),
            i < self.keys().len(),
        ensures
            *value == self@[self.keys()[i as int]],
    {
        proof {
            self.view_at(i as int);
        }
        &self.entries[i].1
    }

    /// The position of the entry of `path`.
    pub fn position(&self, path: &FsPath) -> (found: Option<usize>)
        requires
            self.wf(),
        ensures
            match found {
                Some(i) => i < self.keys().len() && self.keys()[i as int] == path@
                    && self@.dom().contains(path@),
                None => !self@.dom().contains(path@),
            },
    {
        let mut i: usize = 0;
        while i < self.entries.len()
            invariant
                i <= self.entries@.len(),
                self.wf(),
                forall|k: int| 0 <= k < i ==> self.keys()[k] != path@,
            decreases self.entries@.len() - i,
        {
            if self.entries[i].0.same(path) {
                proof {
                    self.view_at(i as int);
                }
                return Some(i);
            }
            i += 1;
        }
        None
    }

    /// Whether `path` has an entry.
    pub fn contains(&self, path: &FsPath) -> (found: bool)
        requires
            self.wf(),
        ensures
            found == self@.dom().contains(path@),
    {
        self.position(path).is_some()
    }

    /// Puts another value in the entry at position `i`.
    pub fn replace(&mut self, i: usize, value: V) -> (before: V)
        requires
            old(self).wf(),
            i < old(self).keys().len(),
        ensures
            final(self).wf(),
            final(self).keys() == old(self).keys(),
            final(self)@ == old(self)@.insert(old(self).keys()[i as int], value),
            before == old(self)@[old(self).keys()[i as int]],
    {
        let ghost start = *self;
        let (path, before) = self.entries.remove(i);
        self.entries.insert(i, (path, value));
        assert(self.keys() =~= start.keys());
        proof {
            start.view_at(i as int);
            self.view_at(i as int);
            let map = start@.insert(start.keys()[i as int], value);
            assert(self@.dom() =~= map.dom());
            assert forall|p: Seq<PartView>| self@.dom().contains(p) implies self@[p] == map[p] by {
                let k = self.keys().index_of(p);
                assert(self.keys()[k] == p);
            }
            assert(self@ =~= map);
        }
        before
    }

    /// Gives `path`, which has no entry yet, an entry.
    pub fn add(&mut self, path: FsPath, value: V)
        requires
            old(self).wf(),
            !old(self)@.dom().contains(path@),
        ensures
            final(self).wf(),
            final(self).keys() == old(self).keys().push(path@),
            final(self)@ == old(self)@.insert(path@, value),
    {
        let ghost start = *self;
        self.entries.push((path, value));
        proof {
            let n = start.entries@.len() as int;
            assert(self.keys() =~= start.keys().push(path@));
            assert forall|i: int| 0 <= i < n implies #[trigger] start.keys()[i] != path@ by {
                start.view_at(i);
            }
            assert(self.wf());
            self.view_at(n);
            let map = start@.insert(path@, value);
            assert forall|p: Seq<PartView>| self@.dom().contains(p) <==> map.dom().contains(p) by {
                if start@.dom().contains(p) {
                    let k = start.keys().index_of(p);
                    assert(self.keys()[k] == p);
                }
                if self.keys().contains(p) {
                    let k = self.keys().index_of(p);
                    if k < n {
                        assert(start.keys()[k] == p);
                    }
                }
            }
            assert forall|p: Seq<PartView>| self@.dom().contains(p) implies self@[p] == map[p] by {
                let k = self.keys().index_of(p);
                self.view_at(k);
                if k < n {
                    start.view_at(k);
                }
            }
            assert(self@ =~= map);
        }
    }

    /// Takes the entry at position `i` out.
    pub fn remove_at(&mut self, i: usize)
        requires
            old(self).wf(),
            i < old(self).keys().len(),
        ensures
            final(self).wf(),
            final(self).keys() == old(self).keys().remove(i as int),
            final(self)@ == old(self)@.remove(old(self).keys()[i as int]),
    {
        let ghost start = *self;
        let _ = self.entries.remove(i);
        proof {
            let at = i as int;
            assert(self.keys() =~= start.keys().remove(at));
            assert forall|a: int, b: int| 0 <= a < b < self.keys().len() implies
                #[trigger] self.keys()[a] != #[trigger] self.keys()[b] by {
                let p = if a < at { a } else { a + 1 };
                let q = if b < at { b } else { b + 1 };
                assert(self.keys()[a] == start.keys()[p] && self.keys()[b] == start.keys()[q]);
            }
            let gone = start.keys()[at];
            let map = start@.remove(gone);
            assert forall|p: Seq<PartView>| self@.dom().contains(p) <==> map.dom().contains(p) by {
                if map.dom().contains(p) {
                    let k = start.keys().index_of(p);
                    assert(start.keys()[k] == p);
                    let t = if k < at { k } else { k - 1 };
                    assert(self.keys()[t] == p);
                }
                if self.keys().contains(p) {
                    let k = self.keys().index_of(p);
                    let t = if k < at { k } else { k + 1 };
                    assert(start.keys()[t] == p);
                    assert(p != gone);
                }
            }
            assert forall|p: Seq<PartView>| self@.dom().contains(p) implies self@[p] == map[p] by {
                let k = self.keys().index_of(p);
                self.view_at(k);
                start.view_at(if k < at { k } else { k + 1 });
            }
            assert(self@ =~= map);
        }
    }

    /// Takes all entries out.
    pub fn clear(&mut self)
        ensures
            final(self).wf(),
            final(self)@ == Map::<Seq<PartView>, V>::empty(),
    {
        self.entries.clear();
        assert(self@ =~= Map::<Seq<PartView>, V>::empty());
    }
}

/// A set of paths.
pub struct PathSet {
    members: PathMap<()>,
}

impl View for PathSet {
    type V = Set<Seq<PartView>>;

    closed spec fn view(&self) -> Set<Seq<PartView>> {
        self.members@.dom()
    }
}

impl PathSet {
    /// No path is held twice.
    pub closed spec fn wf(&self) -> bool {
        self.members.wf()
    }

    /// A set without members.
    pub fn new() -> (set: Self)
        ensures
            set.wf(),
            set@ == Set::<Seq<PartView>>::empty(),
    {
        let set = PathSet { members: PathMap::new() };
        assert(set@ =~= Set::<Seq<PartView>>::empty());
        set
    }

    /// Whether `path` is a member.
    pub fn contains(&self, path: &FsPath) -> (found: bool)
        requires
            self.wf(),
        ensures
            found == self@.contains(path@),
    {
        self.members.contains(path)
    }

    /// Whether there is no member.
    pub fn is_empty(&self) -> (empty: bool)
        requires
            self.wf(),
        ensures
            empty == (self@ == Set::<Seq<PartView>>::empty()),
    {
        proof {
            self.members.keys_are_domain();
            if self.members.keys().len() == 0 {
                assert(self@ =~= Set::<Seq<PartView>>::empty());
            }
        }
        self.members.len() == 0
    }

    /// Makes `path` a member.
    pub fn insert(&mut self, path: FsPath)
        requires
            old(self).wf(),
        ensures
            final(self).wf(),
            final(self)@ == old(self)@.insert(path@),
    {
        if !self.members.contains(&path) {
            self.members.add(path, ());
        }
        assert(self@ =~= old(self)@.insert(path@));
    }

    /// Takes `path` out.
    pub fn remove(&mut self, path: &FsPath)
        requires
            old(self).wf(),
        ensures
            final(self).wf(),
            final(self)@ == old(self)@.remove(path@),
    {
        if let Some(i) = self.members.position(path) {
            self.members.remove_at(i);
        }
        assert(self@ =~= old(self)@.remove(path@));
    }

    /// Takes all members out.
    pub fn clear(&mut self)
        ensures
            final(self).wf(),
            final(self)@ == Set::<Seq<PartView>>::empty(),
    {
        self.members.clear();
        assert(self@ =~= Set::<Seq<PartView>>::empty());
    }
}

} // verus!
