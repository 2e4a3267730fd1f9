//! First-fit allocator over the unused byte ranges of an archive file.
//!
//! The free space is a sorted list of finite chunks, no two of which touch,
//! followed by an open-ended tail that starts at the current end of file.

use vstd::prelude::*;
use crate::error::AllocError;

verus! {

/// A finite run of unused bytes: `[offset, offset + size)`.
#[derive(Clone, Copy, Debug, PartialEq, Eq, Structural)]
pub struct Chunk {
    pub offset: u64,
    pub size: u64,
}

impl Chunk {
    /// One past the last byte of the run.
    pub open spec fn end(self) -> int {
        self.offset + self.size
    }

    /// Whether position `p` lies inside the run.
    pub open spec fn has(self, p: int) -> bool {
        self.offset <= p < self.offset + self.size
    }
}

/// Mathematical model of the free-space map: the finite chunks in file order,
/// the start of the open-ended tail, and the largest end of file that the
/// archive's sink can address.
pub struct FreeSpace {
    pub chunks: Seq<Chunk>,
    pub tail: int,
    pub limit: int,
}

impl FreeSpace {
    /// Whether byte position `p` is unused.
    pub open spec fn is_free(self, p: int) -> bool {
        p >= self.tail || exists|i: int|
            0 <= i < self.chunks.len() && #[trigger] self.chunks[i].has(p)
    }

    /// Chunks are non-empty, sorted, pairwise disjoint, never adjacent to
    /// each other, and never adjacent to the tail.
    pub open spec fn wf(self) -> bool {
        &&& 0 <= self.tail <= self.limit <= u64::MAX
        &&& forall|i: int| 0 <= i < self.chunks.len() ==> (#[trigger] self.chunks[i]).size > 0
        &&& forall|i: int, j: int|
            0 <= i < j < self.chunks.len() ==> (#[trigger] self.chunks[i]).end() < (
            #[trigger] self.chunks[j]).offset
        &&& forall|i: int|
            0 <= i < self.chunks.len() ==> (#[trigger] self.chunks[i]).end() < self.tail
    }

    /// No byte of `[off, off + n)` is free.
    pub open spec fn none_free(self, off: int, n: int) -> bool {
        forall|p: int| off <= p < off + n ==> !#[trigger] self.is_free(p)
    }

    /// `o` is a free position from which `n` free bytes follow, all of them
    /// below the limit.
    pub open spec fn window_free(self, o: int, n: int) -> bool {
        &&& self.is_free(o)
        &&& o + n <= self.limit
        &&& forall|p: int| o <= p < o + n ==> #[trigger] self.is_free(p)
    }

    /// `off` is the leftmost position at which `n` bytes can be taken.
    pub open spec fn first_fit(self, n: int, off: int) -> bool {
        &&& 0 <= off
        &&& self.window_free(off, n)
        &&& forall|o: int| 0 <= o < off ==> !#[trigger] self.window_free(o, n)
    }

    /// There is no position at which `n` bytes can be taken.
    pub open spec fn no_window(self, n: int) -> bool {
        forall|o: int| 0 <= o ==> !#[trigger] self.window_free(o, n)
    }

    /// `self` is `pre` with `[off, off + n)` taken out of the free bytes.
    pub open spec fn took(self, pre: FreeSpace, off: int, n: int) -> bool {
        forall|p: int|
            #![trigger self.is_free(p)]
            #![trigger pre.is_free(p)]
            self.is_free(p) <==> (pre.is_free(p) && !(off <= p < off + n))
    }

    /// `self` is `pre` with `[off, off + n)` added to the free bytes.
    pub open spec fn gave(self, pre: FreeSpace, off: int, n: int) -> bool {
        forall|p: int|
            #![trigger self.is_free(p)]
            #![trigger pre.is_free(p)]
            self.is_free(p) <==> (pre.is_free(p) || off <= p < off + n)
    }

    /// A free run starts exactly at `at` and is at least `extra` bytes long.
    pub open spec fn starts_at(self, at: int, extra: int) -> bool {
        ||| (self.tail == at && at + extra <= self.limit)
        ||| exists|i: int|
            0 <= i < self.chunks.len() && (#[trigger] self.chunks[i]).offset == at
                && self.chunks[i].size >= extra
    }

    /// What a successful resize of `[offset, offset + size)` to `new_size`
    /// bytes, answered with `off`, does to the free bytes: a shrink frees
    /// the cut-off end; a grow first tries the free run that starts right
    /// behind the range; failing that the range is freed and the new size
    /// taken first-fit.
    pub open spec fn realloc_ok(
        self,
        pre: FreeSpace,
        offset: int,
        size: int,
        new_size: int,
        off: int,
    ) -> bool {
        if new_size <= size {
            &&& off == offset
            &&& pre.none_free(offset + new_size, size - new_size)
            &&& self.gave(pre, offset + new_size, size - new_size)
        } else if pre.starts_at(offset + size, new_size - size) {
            &&& off == offset
            &&& self.took(pre, offset + size, new_size - size)
        } else {
            &&& pre.none_free(offset, size)
            &&& exists|mid: FreeSpace|
                mid.wf() && mid.limit == pre.limit && #[trigger] mid.gave(pre, offset, size)
                    && mid.first_fit(new_size, off) && self.took(mid, off, new_size)
        }
    }

    /// When a resize of `[offset, offset + size)` to `new_size` bytes is
    /// refused, and with which error.
    pub open spec fn realloc_refused(
        self,
        offset: int,
        size: int,
        new_size: int,
        e: AllocError,
    ) -> bool {
        if new_size <= size {
            e == AllocError::InvalidFree && !self.none_free(offset + new_size, size - new_size)
        } else if self.starts_at(offset + size, new_size - size) {
            false
        } else if !self.none_free(offset, size) {
            e == AllocError::InvalidFree
        } else {
            e == AllocError::OutOfSpace && exists|mid: FreeSpace|
                mid.wf() && mid.limit == self.limit && #[trigger] mid.gave(self, offset, size)
                    && mid.no_window(new_size)
        }
    }

    /// What a successful resize means to the holder of the old range, none
    /// of whose bytes was free: the new range is made of bytes that were
    /// free or belonged to the old range, and afterwards exactly those bytes
    /// are free that were free or in the old range and are not in the new
    /// one.
    pub proof fn lemma_realloc_summary(
        self,
        pre: FreeSpace,
        offset: int,
        size: int,
        new_size: int,
        off: int,
    )
        requires
            pre.wf(),
            0 <= size,
            0 <= new_size,
            pre.none_free(offset, size),
            self.realloc_ok(pre, offset, size, new_size, off),
        ensures
            off == offset || pre.is_free(off) || offset <= off < offset + size,
            forall|p: int|
                off <= p < off + new_size ==> #[trigger] pre.is_free(p) || offset <= p < offset
                    + size,
            forall|p: int|
                #![trigger self.is_free(p)]
                #![trigger pre.is_free(p)]
                self.is_free(p) <==> ((pre.is_free(p) || offset <= p < offset + size) && !(off <= p
                    < off + new_size)),
    {
        if new_size <= size {
            assert forall|p: int|
                #![trigger self.is_free(p)]
                #![trigger pre.is_free(p)]
                self.is_free(p) <==> ((pre.is_free(p) || offset <= p < offset + size) && !(off <= p
                    < off + new_size)) by {
                if offset <= p < offset + size {
                    assert(!pre.is_free(p));
                }
            }
        } else if pre.starts_at(offset + size, new_size - size) {
            let at = offset + size;
            assert forall|p: int| at <= p < off + new_size implies #[trigger] pre.is_free(p) by {
                if pre.tail != at {
                    let i = choose|i: int|
                        0 <= i < pre.chunks.len() && (#[trigger] pre.chunks[i]).offset == at
                            && pre.chunks[i].size >= new_size - size;
                    assert(pre.chunks[i].has(p));
                }
            }
            assert forall|p: int|
                #![trigger self.is_free(p)]
                #![trigger pre.is_free(p)]
                self.is_free(p) <==> ((pre.is_free(p) || offset <= p < offset + size) && !(off <= p
                    < off + new_size)) by {
                if offset <= p < offset + size {
                    assert(!pre.is_free(p));
                }
            }
        } else {
            let mid = choose|mid: FreeSpace|
                mid.wf() && mid.limit == pre.limit && #[trigger] mid.gave(pre, offset, size)
                    && mid.first_fit(new_size, off) && self.took(mid, off, new_size);
            assert(mid.is_free(off));
            assert forall|p: int| off <= p < off + new_size implies #[trigger] pre.is_free(p)
                || offset <= p < offset + size by {
                assert(mid.is_free(p));
            }
            assert forall|p: int|
                #![trigger self.is_free(p)]
                #![trigger pre.is_free(p)]
                self.is_free(p) <==> ((pre.is_free(p) || offset <= p < offset + size) && !(off <= p
                    < off + new_size)) by {
                assert(mid.is_free(p) <==> (pre.is_free(p) || offset <= p < offset + size));
            }
        }
    }

    /// Every byte of `[off, off + n)` is free.
    pub open spec fn all_free(self, off: int, n: int) -> bool {
        forall|p: int| off <= p < off + n ==> #[trigger] self.is_free(p)
    }

    /// Handing back exactly what was taken restores the free bytes: after
    /// `[off, off + n)` was taken from `pre` and given back, every byte is
    /// free if and only if it was free in `pre`.
    pub proof fn lemma_give_back_restores(self, pre: FreeSpace, mid: FreeSpace, off: int, n: int)
        requires
            pre.all_free(off, n),
            mid.took(pre, off, n),
            self.gave(mid, off, n),
        ensures
            forall|p: int| #[trigger] self.is_free(p) <==> pre.is_free(p),
    {
        assert forall|p: int| #[trigger] self.is_free(p) <==> pre.is_free(p) by {
            assert(mid.is_free(p) <==> (pre.is_free(p) && !(off <= p < off + n)));
        }
    }

    /// The byte right behind a chunk is in use.
    pub proof fn lemma_chunk_end_used(self, i: int)
        requires
            self.wf(),
            0 <= i < self.chunks.len(),
        ensures
            !self.is_free(self.chunks[i].end()),
    {
        let p = self.chunks[i].end();
        assert forall|j: int| 0 <= j < self.chunks.len() implies !(#[trigger] self.chunks[j]).has(
            p,
        ) by {
            if j < i {
                assert(self.chunks[j].end() < self.chunks[i].offset);
            } else if j > i {
                assert(self.chunks[i].end() < self.chunks[j].offset);
            }
        }
    }
}

/// The free-space map of one archive.
pub struct AvailableChunkList {
    chunks: Vec<Chunk>,
    tail: u64,
    limit: u64,
}

impl View for AvailableChunkList {
    type V = FreeSpace;

    closed spec fn view(&self) -> FreeSpace {
        FreeSpace { chunks: self.chunks@, tail: self.tail as int, limit: self.limit as int }
    }
}

impl AvailableChunkList {
    /// A map with no finite chunk, whose tail starts at `start` and may
    /// grow up to `limit`.
    pub fn new(start: u64, limit: u64) -> (r: Self)
        requires
            start <= limit,
        ensures
            r@.wf(),
            r@.chunks.len() == 0,
            r@.tail == start,
            r@.limit == limit,
    {
        AvailableChunkList { chunks: Vec::new(), tail: start, limit }
    }

    /// Start of the open-ended tail: the end of the bytes handed out so far.
    pub fn tail(&self) -> (r: u64)
        ensures
            r == self@.tail,
    {
        self.tail
    }

    /// Number of finite chunks.
    pub fn chunk_count(&self) -> (r: usize)
        ensures
            r == self@.chunks.len(),
    {
        self.chunks.len()
    }

    /// The `i`-th finite chunk in file order.
    pub fn chunk_at(&self, i: usize) -> (r: Chunk)
        requires
            i < self@.chunks.len(),
        ensures
            r == self@.chunks[i as int],
    {
        self.chunks[i]
    }

    /// Takes `size` bytes from the leftmost free run that is long enough,
    /// growing the file through the tail when no finite chunk suffices.
    #[verifier::rlimit(40)]
    #[verifier::spinoff_prover]
    pub fn alloc_chunk(&mut self, size: usize) -> (res: Result<u64, AllocError>)
        requires
            old(self)@.wf(),
        ensures
            final(self)@.wf(),
            final(self)@.limit == old(self)@.limit,
            match res {
                Ok(off) => {
                    &&& old(self)@.first_fit(size as int, off as int)
                    &&& final(self)@.took(old(self)@, off as int, size as int)
                    &&& final(self)@.tail >= old(self)@.tail
                    &&& final(self)@.tail >= off + size
                },
                Err(e) => {
                    &&& e == AllocError::OutOfSpace
                    &&& final(self)@ == old(self)@
                    &&& old(self)@.no_window(size as int)
                },
            },
    {
        let n: u64 = size as u64;
        let ghost pre = self@;
        let mut i: usize = 0;
        while i < self.chunks.len()
            invariant
                self@ == pre,
                pre == old(self)@,
                pre.wf(),
                n == size,
                i <= self.chunks.len(),
                forall|j: int| 0 <= j < i ==> (#[trigger] pre.chunks[j]).size < n,
            decreases self.chunks.len() - i,
        {
            let c = self.chunks[i];
            if c.size >= n {
                self.take_front(i, n);
                proof {
                    let k = i as int;
                    assert(pre.chunks[k].end() < pre.tail);
                    assert(pre.chunks[k].has(c.offset as int));
                    assert forall|p: int| c.offset <= p < c.offset + n implies #[trigger] pre.is_free(
                        p,
                    ) by {
                        assert(pre.chunks[k].has(p));
                    }
                    Self::lemma_small_chunks_block(pre, k, n as int);
                }
                return Ok(c.offset);
            }
            i += 1;
        }
        if n > self.limit - self.tail {
            proof {
                assert forall|o: int| 0 <= o implies !#[trigger] pre.window_free(o, n as int) by {
                    if pre.is_free(o) && o < pre.tail {
                        let j = choose|j: int|
                            0 <= j < pre.chunks.len() && #[trigger] pre.chunks[j].has(o);
                        pre.lemma_chunk_end_used(j);
                        assert(!pre.is_free(pre.chunks[j].end()));
                    }
                }
            }
            return Err(AllocError::OutOfSpace);
        }
        let off = self.tail;
        self.tail = self.tail + n;
        proof {
            let post = self@;
            Self::lemma_small_chunks_block(pre, pre.chunks.len() as int, n as int);
            assert forall|o: int| 0 <= o < off implies !#[trigger] pre.window_free(o, n as int) by {
                if pre.is_free(o) {
                    let j = choose|j: int|
                        0 <= j < pre.chunks.len() && #[trigger] pre.chunks[j].has(o);
                    pre.lemma_chunk_end_used(j);
                }
            }
            assert forall|p: int|
                #![trigger post.is_free(p)]
                #![trigger pre.is_free(p)]
                post.is_free(p) <==> (pre.is_free(p) && !(off <= p < off + n)) by {
                if post.is_free(p) && p < post.tail {
                    let j = choose|j: int|
                        0 <= j < post.chunks.len() && #[trigger] post.chunks[j].has(p);
                    assert(pre.chunks[j].has(p));
                }
                if pre.is_free(p) && p < pre.tail {
                    let j = choose|j: int|
                        0 <= j < pre.chunks.len() && #[trigger] pre.chunks[j].has(p);
                    assert(post.chunks[j].has(p));
                }
            }
        }
        Ok(off)
    }

    /// Hands `[offset, offset + size)` back, merging it with the free run
    /// that ends at `offset` and with the one that starts at its end. Refused
    /// when any byte of the range is already free.
    #[verifier::rlimit(40)]
    #[verifier::spinoff_prover]
    pub fn free_chunk(&mut self, offset: u64, size: usize) -> (res: Result<(), AllocError>)
        requires
            old(self)@.wf(),
        ensures
            final(self)@.wf(),
            final(self)@.limit == old(self)@.limit,
            res is Ok <==> old(self)@.none_free(offset as int, size as int),
            match res {
                Ok(()) => {
                    &&& final(self)@.gave(old(self)@, offset as int, size as int)
                    &&& final(self)@.tail <= old(self)@.tail
                    &&& final(self)@.tail >= old(self)@.tail || final(self)@.tail <= offset
                },
                Err(e) => e == AllocError::InvalidFree && final(self)@ == old(self)@,
            },
    {
        let n: u64 = size as u64;
        let ghost pre = self@;
        if n == 0 {
            return Ok(());
        }
        if n > u64::MAX - offset {
            assert(pre.is_free(u64::MAX as int));
            return Err(AllocError::InvalidFree);
        }
        let end: u64 = offset + n;
        if end > self.tail {
            assert(pre.is_free(if offset >= pre.tail { offset as int } else { pre.tail }));
            return Err(AllocError::InvalidFree);
        }
        let len: usize = self.chunks.len();
        let mut i: usize = 0;
        while i < len && self.chunks[i].offset < offset
            invariant
                self@ == pre,
                len == pre.chunks.len(),
                i <= len,
                forall|j: int| 0 <= j < i ==> (#[trigger] pre.chunks[j]).offset < offset,
            decreases len - i,
        {
            i += 1;
        }
        let ghost k = i as int;
        let mut merge_pred: bool = false;
        if i > 0 {
            let c = self.chunks[i - 1];
            assert(pre.chunks[k - 1].end() < pre.tail);
            if c.offset + c.size > offset {
                assert(pre.chunks[k - 1].has(offset as int));
                assert(pre.is_free(offset as int));
                return Err(AllocError::InvalidFree);
            }
            merge_pred = c.offset + c.size == offset;
        }
        if i < len {
            let c = self.chunks[i];
            if c.offset < end {
                assert(pre.chunks[k].has(c.offset as int));
                assert(pre.is_free(c.offset as int));
                return Err(AllocError::InvalidFree);
            }
        }
        proof {
            assert forall|j: int| 0 <= j < pre.chunks.len() implies if j < k {
                (#[trigger] pre.chunks[j]).end() <= offset
            } else {
                pre.chunks[j].offset >= end
            } by {
                if j < k - 1 {
                    assert(pre.chunks[j].end() < pre.chunks[k - 1].offset);
                } else if j > k {
                    assert(pre.chunks[k].end() < pre.chunks[j].offset);
                }
            }
            assert(pre.none_free(offset as int, size as int));
        }
        if i == len {
            if end == self.tail {
                if merge_pred {
                    let c = self.chunks[i - 1];
                    self.tail = c.offset;
                    self.chunks.pop();
                } else {
                    self.tail = offset;
                }
                proof {
                    Self::lemma_merge_into_tail(pre, self@, offset as int, n as int);
                }
            } else {
                if merge_pred {
                    let c = self.chunks[i - 1];
                    let merged = Chunk { offset: c.offset, size: c.size + n };
                    self.chunks.set(i - 1, merged);
                    proof {
                        Self::lemma_widen_chunk(pre, self@, k - 1, offset as int, n as int);
                    }
                } else {
                    self.chunks.insert(i, Chunk { offset, size: n });
                    proof {
                        Self::lemma_insert_chunk(pre, self@, k, offset as int, n as int);
                    }
                }
            }
        } else {
            let s = self.chunks[i];
            assert(pre.chunks[k].end() < pre.tail);
            if s.offset == end {
                if merge_pred {
                    let c = self.chunks[i - 1];
                    let merged = Chunk { offset: c.offset, size: c.size + n + s.size };
                    self.chunks.set(i - 1, merged);
                    self.chunks.remove(i);
                    proof {
                        Self::lemma_bridge_chunks(pre, self@, k, offset as int, n as int);
                    }
                } else {
                    self.chunks.set(i, Chunk { offset, size: n + s.size });
                    proof {
                        Self::lemma_widen_chunk(pre, self@, k, offset as int, n as int);
                    }
                }
            } else {
                if merge_pred {
                    let c = self.chunks[i - 1];
                    self.chunks.set(i - 1, Chunk { offset: c.offset, size: c.size + n });
                    proof {
                        Self::lemma_widen_chunk(pre, self@, k - 1, offset as int, n as int);
                    }
                } else {
                    self.chunks.insert(i, Chunk { offset, size: n });
                    proof {
                        Self::lemma_insert_chunk(pre, self@, k, offset as int, n as int);
                    }
                }
            }
        }
        Ok(())
    }

    /// Replacing chunk `i` by one that covers it and the adjacent range
    /// `[off, off + n)` adds exactly that range to the free bytes.
    proof fn lemma_widen_chunk(pre: FreeSpace, post: FreeSpace, i: int, off: int, n: int)
        requires
            pre.wf(),
            post.limit == pre.limit,
            n > 0,
            0 <= i < pre.chunks.len(),
            post.tail == pre.tail,
            post.chunks.len() == pre.chunks.len(),
            forall|j: int| 0 <= j < pre.chunks.len() && j != i ==> post.chunks[j] == pre.chunks[j],
            pre.chunks[i].end() == off || pre.chunks[i].offset == off + n,
            post.chunks[i].offset == if pre.chunks[i].end() == off {
                pre.chunks[i].offset as int
            } else {
                off
            },
            post.chunks[i].size == pre.chunks[i].size + n,
            i > 0 ==> pre.chunks[i - 1].end() < post.chunks[i].offset,
            i + 1 < pre.chunks.len() ==> post.chunks[i].end() < pre.chunks[i + 1].offset,
            post.chunks[i].end() < pre.tail,
        ensures
            post.wf(),
            post.gave(pre, off, n),
    {
        assert forall|a: int, b: int| 0 <= a < b < post.chunks.len() implies (
        #[trigger] post.chunks[a]).end() < (#[trigger] post.chunks[b]).offset by {
            assert(pre.chunks[a].end() < pre.chunks[b].offset);
            if a == i && b > i + 1 {
                assert(pre.chunks[i + 1].end() < pre.chunks[b].offset);
            }
            if b == i && a < i - 1 {
                assert(pre.chunks[a].end() < pre.chunks[i - 1].offset);
            }
        }
        assert forall|a: int| 0 <= a < post.chunks.len() implies (#[trigger] post.chunks[a]).end()
            < post.tail && post.chunks[a].size > 0 by {
            assert(pre.chunks[a].end() < pre.tail);
        }
        assert forall|p: int|
            #![trigger post.is_free(p)]
            #![trigger pre.is_free(p)]
            post.is_free(p) <==> (pre.is_free(p) || off <= p < off + n) by {
            if post.is_free(p) && p < post.tail {
                let j = choose|j: int|
                    0 <= j < post.chunks.len() && #[trigger] post.chunks[j].has(p);
                if j != i {
                    assert(pre.chunks[j].has(p));
                } else if !(off <= p < off + n) {
                    assert(pre.chunks[i].has(p));
                }
            }
            if pre.is_free(p) && p < pre.tail {
                let j = choose|j: int|
                    0 <= j < pre.chunks.len() && #[trigger] pre.chunks[j].has(p);
                assert(post.chunks[j].has(p));
            }
            if off <= p < off + n {
                assert(post.chunks[i].has(p));
            }
        }
    }

    /// Inserting `[off, off + n)` as a chunk of its own, where it touches no
    /// neighbour, adds exactly that range to the free bytes.
    proof fn lemma_insert_chunk(pre: FreeSpace, post: FreeSpace, i: int, off: int, n: int)
        requires
            pre.wf(),
            post.limit == pre.limit,
            n > 0,
            0 <= off,
            off + n <= u64::MAX,
            0 <= i <= pre.chunks.len(),
            post.tail == pre.tail,
            post.chunks == pre.chunks.insert(i, Chunk { offset: off as u64, size: n as u64 }),
            i > 0 ==> pre.chunks[i - 1].end() < off,
            i < pre.chunks.len() ==> off + n < pre.chunks[i].offset,
            off + n < pre.tail,
        ensures
            post.wf(),
            post.gave(pre, off, n),
    {
        assert forall|a: int, b: int| 0 <= a < b < post.chunks.len() implies (
        #[trigger] post.chunks[a]).end() < (#[trigger] post.chunks[b]).offset by {
            let a0 = if a > i { a - 1 } else { a };
            let b0 = if b > i { b - 1 } else { b };
            if a != i && b != i {
                assert(pre.chunks[a0].end() < pre.chunks[b0].offset);
            } else if a == i {
                if b0 > i {
                    assert(pre.chunks[i].end() < pre.chunks[b0].offset);
                }
            } else {
                if a0 < i - 1 {
                    assert(pre.chunks[a0].end() < pre.chunks[i - 1].offset);
                }
            }
        }
        assert forall|a: int| 0 <= a < post.chunks.len() implies (#[trigger] post.chunks[a]).end()
            < post.tail && post.chunks[a].size > 0 by {
            let a0 = if a > i { a - 1 } else { a };
            if a != i {
                assert(pre.chunks[a0].end() < pre.tail);
            }
        }
        assert forall|p: int|
            #![trigger post.is_free(p)]
            #![trigger pre.is_free(p)]
            post.is_free(p) <==> (pre.is_free(p) || off <= p < off + n) by {
            if post.is_free(p) && p < post.tail {
                let j = choose|j: int|
                    0 <= j < post.chunks.len() && #[trigger] post.chunks[j].has(p);
                if j < i {
                    assert(pre.chunks[j].has(p));
                } else if j > i {
                    assert(pre.chunks[j - 1].has(p));
                }
            }
            if pre.is_free(p) && p < pre.tail {
                let j = choose|j: int|
                    0 <= j < pre.chunks.len() && #[trigger] pre.chunks[j].has(p);
                if j < i {
                    assert(post.chunks[j].has(p));
                } else {
                    assert(post.chunks[j + 1].has(p));
                }
            }
            if off <= p < off + n {
                assert(post.chunks[i].has(p));
            }
        }
    }

    /// Joining chunk `i - 1`, the range `[off, off + n)` and chunk `i` into
    /// one chunk adds exactly that range to the free bytes.
    proof fn lemma_bridge_chunks(pre: FreeSpace, post: FreeSpace, i: int, off: int, n: int)
        requires
            pre.wf(),
            post.limit == pre.limit,
            n > 0,
            0 < i < pre.chunks.len(),
            post.tail == pre.tail,
            pre.chunks[i - 1].end() == off,
            pre.chunks[i].offset == off + n,
            post.chunks == pre.chunks.update(
                i - 1,
                Chunk {
                    offset: pre.chunks[i - 1].offset,
                    size: (pre.chunks[i - 1].size + n + pre.chunks[i].size) as u64,
                },
            ).remove(i),
        ensures
            post.wf(),
            post.gave(pre, off, n),
    {
        assert(pre.chunks[i].end() < pre.tail);
        assert forall|a: int, b: int| 0 <= a < b < post.chunks.len() implies (
        #[trigger] post.chunks[a]).end() < (#[trigger] post.chunks[b]).offset by {
            let a0 = if a >= i - 1 { a + 1 } else { a };
            let b0 = if b >= i { b + 1 } else { b };
            assert(pre.chunks[a0].end() < pre.chunks[b0].offset);
            if b == i - 1 {
                assert(pre.chunks[a].end() < pre.chunks[i - 1].offset);
            }
        }
        assert forall|a: int| 0 <= a < post.chunks.len() implies (#[trigger] post.chunks[a]).end()
            < post.tail && post.chunks[a].size > 0 by {
            let a0 = if a >= i - 1 { a + 1 } else { a };
            assert(pre.chunks[a0].end() < pre.tail);
        }
        assert forall|p: int|
            #![trigger post.is_free(p)]
            #![trigger pre.is_free(p)]
            post.is_free(p) <==> (pre.is_free(p) || off <= p < off + n) by {
            if post.is_free(p) && p < post.tail {
                let j = choose|j: int|
                    0 <= j < post.chunks.len() && #[trigger] post.chunks[j].has(p);
                if j < i - 1 {
                    assert(pre.chunks[j].has(p));
                } else if j >= i {
                    assert(pre.chunks[j + 1].has(p));
                } else if p < off {
                    assert(pre.chunks[i - 1].has(p));
                } else if p >= off + n {
                    assert(pre.chunks[i].has(p));
                }
            }
            if pre.is_free(p) && p < pre.tail {
                let j = choose|j: int|
                    0 <= j < pre.chunks.len() && #[trigger] pre.chunks[j].has(p);
                if j < i - 1 {
                    assert(post.chunks[j].has(p));
                } else if j > i {
                    assert(post.chunks[j - 1].has(p));
                } else {
                    assert(post.chunks[i - 1].has(p));
                }
            }
            if off <= p < off + n {
                assert(post.chunks[i - 1].has(p));
            }
        }
    }

    /// Moving the start of the tail back over `[off, off + n)`, and over the
    /// last chunk too when that chunk ends at `off`, adds exactly that range
    /// to the free bytes.
    proof fn lemma_merge_into_tail(pre: FreeSpace, post: FreeSpace, off: int, n: int)
        requires
            pre.wf(),
            post.limit == pre.limit,
            n > 0,
            0 <= off,
            off + n == pre.tail,
            forall|j: int| 0 <= j < pre.chunks.len() ==> (#[trigger] pre.chunks[j]).end() <= off,
            ({
                ||| (post.chunks == pre.chunks && post.tail == off && forall|j: int|
                    0 <= j < pre.chunks.len() ==> (#[trigger] pre.chunks[j]).end() < off)
                ||| (pre.chunks.len() > 0 && pre.chunks.last().end() == off && post.tail
                    == pre.chunks.last().offset && post.chunks == pre.chunks.subrange(
                    0,
                    pre.chunks.len() - 1,
                ))
            }),
        ensures
            post.wf(),
            post.gave(pre, off, n),
    {
        let last = pre.chunks.len() - 1;
        assert forall|a: int, b: int| 0 <= a < b < post.chunks.len() implies (
        #[trigger] post.chunks[a]).end() < (#[trigger] post.chunks[b]).offset by {
            assert(pre.chunks[a].end() < pre.chunks[b].offset);
        }
        assert forall|a: int| 0 <= a < post.chunks.len() implies (#[trigger] post.chunks[a]).end()
            < post.tail && post.chunks[a].size > 0 by {
            assert(pre.chunks[a].size > 0);
            if post.tail != off {
                assert(pre.chunks[a].end() < pre.chunks[last].offset);
            }
        }
        assert forall|p: int|
            #![trigger post.is_free(p)]
            #![trigger pre.is_free(p)]
            post.is_free(p) <==> (pre.is_free(p) || off <= p < off + n) by {
            if post.is_free(p) && p < post.tail {
                let j = choose|j: int|
                    0 <= j < post.chunks.len() && #[trigger] post.chunks[j].has(p);
                assert(pre.chunks[j].has(p));
            }
            if post.tail <= p < off {
                assert(pre.chunks[last].has(p));
            }
            if pre.is_free(p) && p < post.tail {
                let j = choose|j: int|
                    0 <= j < pre.chunks.len() && #[trigger] pre.chunks[j].has(p);
                if post.tail != off && j == last {
                    assert(false);
                }
                assert(post.chunks[j].has(p));
            }
        }
    }

    /// Takes the first `n` bytes of chunk `i`, dropping the chunk when
    /// nothing of it is left.
    #[verifier::rlimit(40)]
    #[verifier::spinoff_prover]
    fn take_front(&mut self, i: usize, n: u64)
        requires
            old(self)@.wf(),
            i < old(self)@.chunks.len(),
            n <= old(self)@.chunks[i as int].size,
        ensures
            final(self)@.wf(),
            final(self)@.tail == old(self)@.tail,
            final(self)@.limit == old(self)@.limit,
            final(self)@.took(old(self)@, old(self)@.chunks[i as int].offset as int, n as int),
    {
        let ghost pre = self@;
        let c = self.chunks[i];
        assert(pre.chunks[i as int].end() < pre.tail);
        if c.size == n {
            self.chunks.remove(i);
        } else {
            self.chunks.set(i, Chunk { offset: c.offset + n, size: c.size - n });
        }
        proof {
            let post = self@;
            let k = i as int;
            assert forall|a: int, b: int| 0 <= a < b < post.chunks.len() implies (
            #[trigger] post.chunks[a]).end() < (#[trigger] post.chunks[b]).offset by {
                let a0 = if c.size == n && a >= k { a + 1 } else { a };
                let b0 = if c.size == n && b >= k { b + 1 } else { b };
                assert(pre.chunks[a0].end() < pre.chunks[b0].offset);
            }
            assert forall|a: int| 0 <= a < post.chunks.len() implies (
            #[trigger] post.chunks[a]).end() < post.tail && post.chunks[a].size > 0 by {
                let a0 = if c.size == n && a >= k { a + 1 } else { a };
                assert(pre.chunks[a0].end() < pre.tail);
            }
            assert forall|p: int|
                #![trigger post.is_free(p)]
                #![trigger pre.is_free(p)]
                post.is_free(p) <==> (pre.is_free(p) && !(c.offset <= p < c.offset + n)) by {
                if post.is_free(p) && p < post.tail {
                    let j = choose|j: int|
                        0 <= j < post.chunks.len() && #[trigger] post.chunks[j].has(p);
                    if c.size == n {
                        if j < k {
                            assert(pre.chunks[j].has(p));
                            assert(pre.chunks[j].end() < pre.chunks[k].offset);
                        } else {
                            assert(pre.chunks[j + 1].has(p));
                            assert(pre.chunks[k].end() < pre.chunks[j + 1].offset);
                        }
                    } else {
                        assert(pre.chunks[j].has(p));
                        if j < k {
                            assert(pre.chunks[j].end() < pre.chunks[k].offset);
                        } else if j > k {
                            assert(pre.chunks[k].end() < pre.chunks[j].offset);
                        }
                    }
                }
                if pre.is_free(p) && !(c.offset <= p < c.offset + n) && p < pre.tail {
                    let j = choose|j: int|
                        0 <= j < pre.chunks.len() && #[trigger] pre.chunks[j].has(p);
                    if c.size == n {
                        if j < k {
                            assert(post.chunks[j].has(p));
                        } else {
                            assert(j > k);
                            assert(post.chunks[j - 1].has(p));
                        }
                    } else {
                        assert(post.chunks[j].has(p));
                    }
                }
            }
        }
    }

    /// A copy of the finite chunks.
    fn snapshot(&self) -> (r: Vec<Chunk>)
        ensures
            r@ == self@.chunks,
    {
        let mut r: Vec<Chunk> = Vec::new();
        let mut i: usize = 0;
        while i < self.chunks.len()
            invariant
                i <= self.chunks.len(),
                r@ == self.chunks@.subrange(0, i as int),
            decreases self.chunks.len() - i,
        {
            r.push(self.chunks[i]);
            assert(r@ =~= self.chunks@.subrange(0, i + 1));
            i += 1;
        }
        assert(r@ =~= self.chunks@);
        r
    }

    /// Resizes the range `[offset, offset + size)` to `new_size` bytes and
    /// returns where it now starts. A shrink keeps the start and frees the
    /// cut-off end. A grow keeps the start when a free run begins right
    /// behind the range and is long enough; otherwise the range is freed and
    /// `new_size` bytes are taken first-fit. Nothing changes on an error.
    #[verifier::rlimit(40)]
    #[verifier::spinoff_prover]
    pub fn realloc_chunk(&mut self, offset: u64, size: usize, new_size: usize) -> (res: Result<
        u64,
        AllocError,
    >)
        requires
            old(self)@.wf(),
        ensures
            final(self)@.wf(),
            final(self)@.limit == old(self)@.limit,
            match res {
                Ok(off) => final(self)@.realloc_ok(
                    old(self)@,
                    offset as int,
                    size as int,
                    new_size as int,
                    off as int,
                ),
                Err(e) => {
                    &&& final(self)@ == old(self)@
                    &&& old(self)@.realloc_refused(offset as int, size as int, new_size as int, e)
                },
            },
    {
        let n_old: u64 = size as u64;
        let n_new: u64 = new_size as u64;
        let ghost pre = self@;
        if new_size <= size {
            let cut: usize = size - new_size;
            if cut == 0 {
                return Ok(offset);
            }
            if n_new > u64::MAX - offset {
                assert(pre.is_free(offset + n_new));
                return Err(AllocError::InvalidFree);
            }
            return match self.free_chunk(offset + n_new, cut) {
                Ok(()) => Ok(offset),
                Err(e) => Err(e),
            };
        }
        let extra: u64 = n_new - n_old;
        if n_old <= u64::MAX - offset {
            let at: u64 = offset + n_old;
            if at == self.tail {
                if extra <= self.limit - self.tail {
                    self.tail = self.tail + extra;
                    proof {
                        let post = self@;
                        assert(post.chunks == pre.chunks);
                        assert forall|a: int| 0 <= a < post.chunks.len() implies (
                        #[trigger] post.chunks[a]).end() < post.tail by {
                            assert(pre.chunks[a].end() < pre.tail);
                        }
                        assert(post.wf());
                        assert forall|p: int|
                            #![trigger post.is_free(p)]
                            #![trigger pre.is_free(p)]
                            post.is_free(p) <==> (pre.is_free(p) && !(at <= p < at + extra)) by {
                            if post.is_free(p) && p < post.tail {
                                let j = choose|j: int|
                                    0 <= j < post.chunks.len() && #[trigger] post.chunks[j].has(p);
                                assert(pre.chunks[j].has(p));
                            }
                            if pre.is_free(p) && p < pre.tail {
                                let j = choose|j: int|
                                    0 <= j < pre.chunks.len() && #[trigger] pre.chunks[j].has(p);
                                assert(post.chunks[j].has(p));
                            }
                        }
                    }
                    return Ok(offset);
                }
            } else {
                let len: usize = self.chunks.len();
                let mut i: usize = 0;
                while i < len && self.chunks[i].offset < at
                    invariant
                        self@ == pre,
                        len == pre.chunks.len(),
                        i <= len,
                        forall|j: int| 0 <= j < i ==> (#[trigger] pre.chunks[j]).offset < at,
                    decreases len - i,
                {
                    i += 1;
                }
                if i < len && self.chunks[i].offset == at && self.chunks[i].size >= extra {
                    self.take_front(i, extra);
                    return Ok(offset);
                }
                proof {
                    assert forall|j: int| 0 <= j < pre.chunks.len() implies !((
                    #[trigger] pre.chunks[j]).offset == at && pre.chunks[j].size >= extra) by {
                        if j > i {
                            assert(pre.chunks[i as int].end() < pre.chunks[j].offset);
                        }
                    }
                }
            }
            assert(!pre.starts_at(offset + size, new_size - size)) by {
                assert forall|j: int| 0 <= j < pre.chunks.len() implies (
                #[trigger] pre.chunks[j]).end() < pre.tail by {}
            }
        }
        assert(!pre.starts_at(offset + size, new_size - size)) by {
            assert forall|j: int| 0 <= j < pre.chunks.len() implies (
            #[trigger] pre.chunks[j]).end() < pre.tail by {}
        }
        let saved_tail: u64 = self.tail;
        let saved: Vec<Chunk> = self.snapshot();
        match self.free_chunk(offset, size) {
            Err(e) => Err(e),
            Ok(()) => {
                let ghost mid = self@;
                match self.alloc_chunk(new_size) {
                    Ok(off) => Ok(off),
                    Err(e) => {
                        self.chunks = saved;
                        self.tail = saved_tail;
                        Err(e)
                    },
                }
            },
        }
    }

    /// Takes the given range out of the free bytes, wherever it lies.
    /// Refused, with nothing changed, when a byte of the range is in use or
    /// the range reaches beyond the limit.
    #[verifier::rlimit(40)]
    #[verifier::spinoff_prover]
    pub fn reserve_chunk(&mut self, offset: u64, size: usize) -> (res: Result<(), AllocError>)
        requires
            old(self)@.wf(),
        ensures
            final(self)@.wf(),
            final(self)@.limit == old(self)@.limit,
            res is Ok <==> (size == 0 || (old(self)@.all_free(offset as int, size as int) && offset
                + size <= old(self)@.limit)),
            match res {
                Ok(()) => final(self)@.took(old(self)@, offset as int, size as int),
                Err(e) => e == AllocError::OutOfSpace && final(self)@ == old(self)@,
            },
    {
        let n: u64 = size as u64;
        let ghost pre = self@;
        if n == 0 {
            return Ok(());
        }
        if offset > self.limit || n > self.limit - offset {
            return Err(AllocError::OutOfSpace);
        }
        let end: u64 = offset + n;
        if offset >= self.tail {
            if offset > self.tail {
                self.chunks.push(Chunk { offset: self.tail, size: offset - self.tail });
            }
            self.tail = end;
            proof {
                let post = self@;
                assert forall|a: int, b: int| 0 <= a < b < post.chunks.len() implies (
                #[trigger] post.chunks[a]).end() < (#[trigger] post.chunks[b]).offset by {
                    if b < pre.chunks.len() {
                        assert(pre.chunks[a].end() < pre.chunks[b].offset);
                    } else {
                        assert(pre.chunks[a].end() < pre.tail);
                    }
                }
                assert forall|a: int| 0 <= a < post.chunks.len() implies (
                #[trigger] post.chunks[a]).end() < post.tail && post.chunks[a].size > 0 by {
                    if a < pre.chunks.len() {
                        assert(pre.chunks[a].end() < pre.tail);
                    }
                }
                assert forall|p: int|
                    #![trigger post.is_free(p)]
                    #![trigger pre.is_free(p)]
                    post.is_free(p) <==> (pre.is_free(p) && !(offset <= p < offset + n)) by {
                    if post.is_free(p) && p < post.tail {
                        let j = choose|j: int|
                            0 <= j < post.chunks.len() && #[trigger] post.chunks[j].has(p);
                        if j < pre.chunks.len() {
                            assert(pre.chunks[j].has(p));
                            assert(pre.chunks[j].end() < pre.tail);
                        }
                    }
                    if pre.is_free(p) && !(offset <= p < offset + n) && p < post.tail {
                        if p < pre.tail {
                            let j = choose|j: int|
                                0 <= j < pre.chunks.len() && #[trigger] pre.chunks[j].has(p);
                            assert(post.chunks[j].has(p));
                        } else {
                            assert(post.chunks[pre.chunks.len() as int].has(p));
                        }
                    }
                }
            }
            return Ok(());
        }
        let len: usize = self.chunks.len();
        let mut i: usize = 0;
        while i < len && self.chunks[i].offset + self.chunks[i].size <= offset
            invariant
                self@ == pre,
                pre.wf(),
                len == pre.chunks.len(),
                i <= len,
                forall|j: int| 0 <= j < i ==> (#[trigger] pre.chunks[j]).end() <= offset,
            decreases len - i,
        {
            assert(pre.chunks[i as int].end() < pre.tail);
            i += 1;
        }
        let ghost k = i as int;
        if i < len {
            assert(pre.chunks[k].end() < pre.tail);
        }
        if i == len || self.chunks[i].offset > offset {
            proof {
                assert forall|j: int| 0 <= j < pre.chunks.len() implies !(
                #[trigger] pre.chunks[j]).has(offset as int) by {
                    if j > k {
                        assert(pre.chunks[k].end() < pre.chunks[j].offset);
                    }
                }
                assert(!pre.is_free(offset as int));
            }
            return Err(AllocError::OutOfSpace);
        }
        let c = self.chunks[i];
        if end > c.offset + c.size {
            proof {
                pre.lemma_chunk_end_used(k);
            }
            return Err(AllocError::OutOfSpace);
        }
        proof {
            assert forall|p: int| offset <= p < offset + n implies #[trigger] pre.is_free(p) by {
                assert(pre.chunks[k].has(p));
            }
        }
        if c.offset == offset {
            self.take_front(i, n);
        } else {
            let left = Chunk { offset: c.offset, size: offset - c.offset };
            self.chunks.set(i, left);
            if end < c.offset + c.size {
                self.chunks.insert(i + 1, Chunk { offset: end, size: c.offset + c.size - end });
            }
            proof {
                let post = self@;
                let split = end < c.offset + c.size;
                assert forall|a: int| 0 <= a < post.chunks.len() implies (
                #[trigger] post.chunks[a]).end() < post.tail && post.chunks[a].size > 0
                    && (a < k ==> post.chunks[a] == pre.chunks[a]) && (a > k + 1 || (a == k + 1
                    && !split) ==> post.chunks[a] == pre.chunks[if split {
                    a - 1
                } else {
                    a
                }]) by {
                    let a0 = if split && a > k {
                        a - 1
                    } else {
                        a
                    };
                    assert(pre.chunks[a0].end() < pre.tail);
                }
                assert forall|a: int, b: int| 0 <= a < b < post.chunks.len() implies (
                #[trigger] post.chunks[a]).end() < (#[trigger] post.chunks[b]).offset by {
                    let a0 = if split && a > k {
                        a - 1
                    } else {
                        a
                    };
                    let b0 = if split && b > k {
                        b - 1
                    } else {
                        b
                    };
                    if a0 < b0 {
                        assert(pre.chunks[a0].end() < pre.chunks[b0].offset);
                    }
                }
                assert forall|p: int|
                    #![trigger post.is_free(p)]
                    #![trigger pre.is_free(p)]
                    post.is_free(p) <==> (pre.is_free(p) && !(offset <= p < offset + n)) by {
                    if post.is_free(p) && p < post.tail {
                        let j = choose|j: int|
                            0 <= j < post.chunks.len() && #[trigger] post.chunks[j].has(p);
                        let j0 = if split && j > k {
                            j - 1
                        } else {
                            j
                        };
                        assert(pre.chunks[j0].has(p));
                    }
                    if pre.is_free(p) && !(offset <= p < offset + n) && p < pre.tail {
                        let j = choose|j: int|
                            0 <= j < pre.chunks.len() && #[trigger] pre.chunks[j].has(p);
                        if j < k {
                            assert(post.chunks[j].has(p));
                        } else if j > k {
                            assert(post.chunks[if split {
                                j + 1
                            } else {
                                j
                            }].has(p));
                        } else if p < offset {
                            assert(post.chunks[k].has(p));
                        } else {
                            assert(post.chunks[k + 1].has(p));
                        }
                    }
                }
            }
        }
        Ok(())
    }

    /// When the first `k` chunks are all shorter than `n`, no window of `n`
    /// free bytes starts inside any of them.
    proof fn lemma_small_chunks_block(s: FreeSpace, k: int, n: int)
        requires
            s.wf(),
            0 <= k <= s.chunks.len(),
            forall|j: int| 0 <= j < k ==> (#[trigger] s.chunks[j]).size < n,
        ensures
            forall|o: int|
                0 <= o < (if k < s.chunks.len() {
                    s.chunks[k].offset as int
                } else {
                    s.tail
                }) ==> !#[trigger] s.window_free(o, n),
    {
        let bound = if k < s.chunks.len() {
            s.chunks[k].offset as int
        } else {
            s.tail
        };
        assert forall|o: int| 0 <= o < bound implies !#[trigger] s.window_free(o, n) by {
            if s.is_free(o) {
                if k < s.chunks.len() {
                    assert(s.chunks[k].end() < s.tail);
                }
                let j = choose|j: int| 0 <= j < s.chunks.len() && #[trigger] s.chunks[j].has(o);
                if j >= k {
                    if j > k {
                        assert(s.chunks[k].end() < s.chunks[j].offset);
                    }
                    assert(false);
                }
                s.lemma_chunk_end_used(j);
                assert(!s.is_free(s.chunks[j].end()));
            }
        }
    }
}

} // verus!
