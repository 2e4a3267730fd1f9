//! Entry descriptors and the index from path to descriptor.

use vstd::prelude::*;

verus! {

/// Where one stored payload lies in the archive and how large it is.
#[derive(Clone, Copy, Debug, PartialEq, Eq, Structural)]
pub struct GenericFileEntry {
    /// Offset of the payload's first byte from the start of the archive.
    pub offset: u64,
    /// Length of the content before compression.
    pub size: u32,
    /// Length of the compressed payload that a reader consumes.
    pub size_compressed: u32,
    /// Bytes that the payload occupies in the file.
    pub size_compressed_aligned: u32,
    /// Flag word; `1` marks a regular file.
    pub entry_type: u8,
}

impl GenericFileEntry {
    /// Whether byte position `p` belongs to the payload's place in the file.
    pub open spec fn covers(self, p: int) -> bool {
        self.offset <= p < self.offset + self.size_compressed_aligned
    }

    /// The two payloads share no byte.
    pub open spec fn apart(self, other: GenericFileEntry) -> bool {
        forall|p: int| !(#[trigger] self.covers(p) && other.covers(p))
    }
}

/// One binding of the index, as a pair of plain values.
pub type Binding = (Seq<char>, GenericFileEntry);

/// No path occurs twice in `s`.
pub open spec fn unique_paths(s: Seq<Binding>) -> bool {
    forall|i: int, j: int| 0 <= i < j < s.len() ==> (#[trigger] s[i]).0 != (#[trigger] s[j]).0
}

/// Whether some binding of `s` has path `k`.
pub open spec fn has_path(s: Seq<Binding>, k: Seq<char>) -> bool {
    exists|i: int| 0 <= i < s.len() && (#[trigger] s[i]).0 == k
}

/// A position in `s` at which path `k` is bound.
pub open spec fn position_of(s: Seq<Binding>, k: Seq<char>) -> int {
    choose|i: int| 0 <= i < s.len() && (#[trigger] s[i]).0 == k
}

/// The mapping that the bindings of `s` make up.
pub open spec fn map_of(s: Seq<Binding>) -> Map<Seq<char>, GenericFileEntry> {
    Map::new(|k: Seq<char>| has_path(s, k), |k: Seq<char>| s[position_of(s, k)].1)
}

/// The binding at position `i` is the one the mapping holds for its path.
pub proof fn lemma_map_of_at(s: Seq<Binding>, i: int)
    requires
        unique_paths(s),
        0 <= i < s.len(),
    ensures
        map_of(s).contains_key(s[i].0),
        map_of(s)[s[i].0] == s[i].1,
        position_of(s, s[i].0) == i,
{
    let k = s[i].0;
    assert(has_path(s, k));
    let c = position_of(s, k);
    if c < i {
        assert(s[c].0 != s[i].0);
    } else if c > i {
        assert(s[i].0 != s[c].0);
    }
}

/// Appending a binding for a path that is not yet bound inserts it.
pub proof fn lemma_map_of_push(s: Seq<Binding>, k: Seq<char>, e: GenericFileEntry)
    requires
        unique_paths(s),
        !has_path(s, k),
    ensures
        unique_paths(s.push((k, e))),
        map_of(s.push((k, e))) == map_of(s).insert(k, e),
{
    let t = s.push((k, e));
    assert forall|i: int, j: int| 0 <= i < j < t.len() implies (#[trigger] t[i]).0 != (
    #[trigger] t[j]).0 by {
        if j < s.len() {
            assert(s[i].0 != s[j].0);
        } else {
            assert(s[i].0 == t[i].0);
        }
    }
    assert(t[s.len() as int].0 == k);
    lemma_map_of_at(t, s.len() as int);
    assert forall|q: Seq<char>| map_of(t).contains_key(q) <==> map_of(s).insert(
        k,
        e,
    ).contains_key(q) by {
        if has_path(t, q) {
            let i = position_of(t, q);
            if i < s.len() {
                assert(s[i].0 == q);
            }
        }
        if has_path(s, q) {
            let i = position_of(s, q);
            assert(t[i].0 == q);
        }
    }
    assert forall|q: Seq<char>| map_of(t).contains_key(q) implies map_of(t)[q] == map_of(s).insert(
        k,
        e,
    )[q] by {
        let i = position_of(t, q);
        lemma_map_of_at(t, i);
        if i < s.len() {
            assert(s[i] == t[i]);
            lemma_map_of_at(s, i);
        }
    }
    assert(map_of(t) =~= map_of(s).insert(k, e));
}

/// Replacing the binding of a path in place rebinds it.
pub proof fn lemma_map_of_update(s: Seq<Binding>, i: int, e: GenericFileEntry)
    requires
        unique_paths(s),
        0 <= i < s.len(),
    ensures
        unique_paths(s.update(i, (s[i].0, e))),
        map_of(s.update(i, (s[i].0, e))) == map_of(s).insert(s[i].0, e),
{
    let k = s[i].0;
    let t = s.update(i, (k, e));
    assert forall|a: int, b: int| 0 <= a < b < t.len() implies (#[trigger] t[a]).0 != (
    #[trigger] t[b]).0 by {
        assert(s[a].0 != s[b].0);
    }
    assert forall|q: Seq<char>| map_of(t).contains_key(q) <==> map_of(s).insert(
        k,
        e,
    ).contains_key(q) by {
        if has_path(t, q) {
            let a = position_of(t, q);
            assert(s[a].0 == q);
        }
        if has_path(s, q) {
            let a = position_of(s, q);
            assert(t[a].0 == q);
        }
        assert(t[i].0 == k);
    }
    assert forall|q: Seq<char>| map_of(t).contains_key(q) implies map_of(t)[q] == map_of(s).insert(
        k,
        e,
    )[q] by {
        let a = position_of(t, q);
        lemma_map_of_at(t, a);
        if a != i {
            assert(s[a] == t[a]);
            lemma_map_of_at(s, a);
            assert(s[a].0 != s[i].0) by {
                if a < i {
                    assert(s[a].0 != s[i].0);
                } else {
                    assert(s[i].0 != s[a].0);
                }
            }
        }
    }
    assert(map_of(t) =~= map_of(s).insert(k, e));
}

/// Taking the binding at position `i` out unbinds its path.
pub proof fn lemma_map_of_remove(s: Seq<Binding>, i: int)
    requires
        unique_paths(s),
        0 <= i < s.len(),
    ensures
        unique_paths(s.remove(i)),
        map_of(s.remove(i)) == map_of(s).remove(s[i].0),
{
    let k = s[i].0;
    let t = s.remove(i);
    assert forall|a: int, b: int| 0 <= a < b < t.len() implies (#[trigger] t[a]).0 != (
    #[trigger] t[b]).0 by {
        let a0 = if a >= i { a + 1 } else { a };
        let b0 = if b >= i { b + 1 } else { b };
        assert(s[a0].0 != s[b0].0);
    }
    assert forall|q: Seq<char>| map_of(t).contains_key(q) <==> map_of(s).remove(k).contains_key(
        q,
    ) by {
        if has_path(t, q) {
            let a = position_of(t, q);
            let a0 = if a >= i { a + 1 } else { a };
            assert(s[a0].0 == q);
            if a0 < i {
                assert(s[a0].0 != s[i].0);
            } else {
                assert(s[i].0 != s[a0].0);
            }
        }
        if has_path(s, q) && q != k {
            let a = position_of(s, q);
            let a1 = if a > i { a - 1 } else { a };
            assert(t[a1].0 == q);
        }
    }
    assert forall|q: Seq<char>| map_of(t).contains_key(q) implies map_of(t)[q] == map_of(s).remove(
        k,
    )[q] by {
        let a = position_of(t, q);
        lemma_map_of_at(t, a);
        let a0 = if a >= i { a + 1 } else { a };
        assert(s[a0] == t[a]);
        lemma_map_of_at(s, a0);
    }
    assert(map_of(t) =~= map_of(s).remove(k));
}

/// One path and its descriptor.
pub struct IndexSlot {
    pub path: String,
    pub entry: GenericFileEntry,
}

/// The index of an archive: each path is bound to at most one descriptor.
/// Bindings keep the order in which their paths were first inserted.
pub struct EntryIndex {
    slots: Vec<IndexSlot>,
}

impl View for EntryIndex {
    type V = Map<Seq<char>, GenericFileEntry>;

    open spec fn view(&self) -> Map<Seq<char>, GenericFileEntry> {
        map_of(self.bindings())
    }
}

impl EntryIndex {
    /// The bindings in iteration order.
    pub closed spec fn bindings(&self) -> Seq<Binding> {
        Seq::new(self.slots@.len(), |i: int| (self.slots@[i].path@, self.slots@[i].entry))
    }

    /// No path is bound twice.
    pub open spec fn wf(&self) -> bool {
        unique_paths(self.bindings())
    }

    /// An index without bindings.
    pub fn new() -> (r: Self)
        ensures
            r.wf(),
            r.bindings().len() == 0,
            r@ == Map::<Seq<char>, GenericFileEntry>::empty(),
    {
        let r = EntryIndex { slots: Vec::new() };
        assert(r@ =~= Map::<Seq<char>, GenericFileEntry>::empty());
        r
    }

    /// Number of bindings.
    pub fn len(&self) -> (r: usize)
        ensures
            r == self.bindings().len(),
    {
        self.slots.len()
    }

    /// The binding at position `i` of the iteration order.
    pub fn slot(&self, i: usize) -> (r: &IndexSlot)
        requires
            i < self.bindings().len(),
        ensures
            (r.path@, r.entry) == self.bindings()[i as int],
    {
        &self.slots[i]
    }

    /// Position of `path` in the iteration order, if it is bound.
    fn find(&self, path: &String) -> (r: Option<usize>)
        ensures
            match r {
                Some(i) => i < self.bindings().len() && self.bindings()[i as int].0 == path@,
                None => !has_path(self.bindings(), path@),
            },
    {
        let mut i: usize = 0;
        while i < self.slots.len()
            invariant
                i <= self.slots.len(),
                forall|j: int| 0 <= j < i ==> (#[trigger] self.bindings()[j]).0 != path@,
            decreases self.slots.len() - i,
        {
            if self.slots[i].path == *path {
                return Some(i);
            }
            i += 1;
        }
        None
    }

    /// The descriptor bound to `path`.
    pub fn get(&self, path: &String) -> (r: Option<GenericFileEntry>)
        requires
            self.wf(),
        ensures
            r == if self@.contains_key(path@) {
                Some(self@[path@])
            } else {
                None
            },
    {
        match self.find(path) {
            Some(i) => {
                proof {
                    lemma_map_of_at(self.bindings(), i as int);
                }
                Some(self.slots[i].entry)
            },
            None => None,
        }
    }

    /// Binds `path` to `entry` and returns the descriptor it displaces. A
    /// path that was bound keeps its place in the iteration order; a new one
    /// goes to the end.
    pub fn insert(&mut self, path: String, entry: GenericFileEntry) -> (r: Option<GenericFileEntry>)
        requires
            old(self).wf(),
        ensures
            final(self).wf(),
            final(self)@ == old(self)@.insert(path@, entry),
            r == if old(self)@.contains_key(path@) {
                Some(old(self)@[path@])
            } else {
                None
            },
            final(self).bindings() == if has_path(old(self).bindings(), path@) {
                old(self).bindings().update(
                    position_of(old(self).bindings(), path@),
                    (path@, entry),
                )
            } else {
                old(self).bindings().push((path@, entry))
            },
    {
        let ghost pre = self.bindings();
        match self.find(&path) {
            Some(i) => {
                let previous = self.slots[i].entry;
                proof {
                    lemma_map_of_at(pre, i as int);
                    lemma_map_of_update(pre, i as int, entry);
                }
                self.slots.set(i, IndexSlot { path, entry });
                assert(self.bindings() =~= pre.update(i as int, (path@, entry)));
                Some(previous)
            },
            None => {
                proof {
                    lemma_map_of_push(pre, path@, entry);
                }
                self.slots.push(IndexSlot { path, entry });
                assert(self.bindings() =~= pre.push((path@, entry)));
                None
            },
        }
    }

    /// Unbinds `path` and returns the descriptor it was bound to.
    pub fn remove(&mut self, path: &String) -> (r: Option<GenericFileEntry>)
        requires
            old(self).wf(),
        ensures
            final(self).wf(),
            final(self)@ == old(self)@.remove(path@),
            r == if old(self)@.contains_key(path@) {
                Some(old(self)@[path@])
            } else {
                None
            },
            final(self).bindings() == if has_path(old(self).bindings(), path@) {
                old(self).bindings().remove(position_of(old(self).bindings(), path@))
            } else {
                old(self).bindings()
            },
    {
        let ghost pre = self.bindings();
        match self.find(path) {
            Some(i) => {
                proof {
                    lemma_map_of_at(pre, i as int);
                    lemma_map_of_remove(pre, i as int);
                }
                let slot = self.slots.remove(i);
                assert(self.bindings() =~= pre.remove(i as int));
                Some(slot.entry)
            },
            None => {
                assert(self@ =~= self@.remove(path@));
                None
            },
        }
    }
}

} // verus!
