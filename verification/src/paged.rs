//! The paged vector: an inline region followed by a table of fixed-size chunks.

use vstd::prelude::*;
use crate::layout::{head_len, lemma_flatten_piece, lemma_page_count_bounds, lemma_split_chunks_flatten, page, page_count, split_chunks};
use crate::arith::{lemma_chunk_slot, lemma_locate, lemma_mul_le, lemma_next_multiple, lemma_split_exact};

verus! {

/// Size of the inline region of [`PagedSmallVec::new`].
pub const DEFAULT_INLINE: usize = 10;

/// Number of chunk slots of [`PagedSmallVec::new`].
pub const DEFAULT_DIRECT: usize = 20;

/// Size of each chunk of [`PagedSmallVec::new`].
pub const DEFAULT_CHUNK: usize = 256;

/// A vector with room for `INLINE` elements in an inline region and for
/// `DIRECT` chunks of `CHUNK` elements each, allocated on first use.
///
/// Element `i < INLINE` lives in the inline region at offset `i`; element
/// `i >= INLINE` lives in chunk `(i - INLINE) / CHUNK` at offset
/// `(i - INLINE) % CHUNK`. Each region holds exactly its live elements, in
/// order. A chunk, once allocated, stays allocated.
pub struct PagedSmallVec<T, const INLINE: usize, const DIRECT: usize, const CHUNK: usize> {
    /// One slot per chunk; `None` until the chunk is first written.
    direct: Vec<Option<Vec<T>>>,
    /// The inline region, reserved with room for `INLINE` elements.
    inline: Vec<T>,
    /// Number of elements.
    len: usize,
    /// Chunk that the next element past the inline region goes to.
    tail_chunk_index: usize,
    /// Offset in that chunk of the next element.
    tail_offset: usize,
    /// Whether the tail chunk has been made ready for writing; cleared
    /// whenever the tail moves to another chunk.
    current_chunk_ready: bool,
}

impl<T, const INLINE: usize, const DIRECT: usize, const CHUNK: usize> PagedSmallVec<
    T,
    INLINE,
    DIRECT,
    CHUNK,
> {
    /// How many elements the layout can hold.
    pub open spec fn capacity() -> int {
        INLINE + DIRECT * CHUNK
    }

    /// Which chunk slots hold an allocated chunk, one entry per slot.
    pub closed spec fn allocated(&self) -> Seq<bool> {
        Seq::new(DIRECT as nat, |c: int| self.direct@[c] is Some)
    }

    /// The allocation table has one entry per chunk slot.
    pub proof fn lemma_allocated_len(&self)
        ensures
            self.allocated().len() == DIRECT,
    {
    }

    /// The chunk that holds the element at logical index `i >= INLINE`.
    pub open spec fn chunk_of(i: int) -> int {
        (i - INLINE) / (CHUNK as int)
    }

    /// Whether some element with a logical index in `lo..hi` lies in chunk `c`.
    pub open spec fn chunk_touched(lo: int, hi: int, c: int) -> bool {
        exists|i: int| lo <= i < hi && INLINE <= i && #[trigger] Self::chunk_of(i) == c
    }

    /// Extending the range `lo..hi` by one index touches the chunk of `hi`
    /// besides the chunks already touched.
    proof fn lemma_touched_step(lo: int, hi: int, c: int)
        requires
            lo <= hi,
        ensures
            Self::chunk_touched(lo, hi + 1, c) == (Self::chunk_touched(lo, hi, c) || (INLINE <= hi
                && Self::chunk_of(hi) == c)),
    {
        if Self::chunk_touched(lo, hi + 1, c) {
            let i = choose|i: int| lo <= i < hi + 1 && INLINE <= i && #[trigger] Self::chunk_of(i) == c;
            if i < hi {
                assert(Self::chunk_touched(lo, hi, c));
            }
        }
        if INLINE <= hi && Self::chunk_of(hi) == c {
            assert(lo <= hi < hi + 1);
        }
    }

    /// The tail position one slot after `(tci, to)`.
    pub open spec fn advanced_tail(tci: int, to: int) -> (int, int) {
        if to + 1 == CHUNK {
            (tci + 1, 0)
        } else {
            (tci, to + 1)
        }
    }

    /// The tail position one slot before `(tci, to)`.
    pub open spec fn rewound_tail(tci: int, to: int) -> (int, int) {
        if to == 0 {
            (tci - 1, CHUNK - 1)
        } else {
            (tci, to - 1)
        }
    }

    /// Moving the tail back undoes moving it forward.
    pub proof fn lemma_rewind_undoes_advance(tci: int, to: int)
        requires
            0 <= to < CHUNK,
        ensures
            Self::rewound_tail(Self::advanced_tail(tci, to).0, Self::advanced_tail(tci, to).1)
                == (tci, to),
    {
    }

    /// The element stored at logical index `i`.
    spec fn slot(&self, i: int) -> T {
        if i < INLINE {
            self.inline@[i]
        } else {
            let p: int = i - INLINE;
            self.direct@[p / CHUNK as int].unwrap()@[p % CHUNK as int]
        }
    }

    /// Whether the tail position `(tci, to)` is where element `len` goes.
    spec fn tail_matches(len: int, tci: int, to: int) -> bool {
        if len <= INLINE {
            tci == 0 && to == 0
        } else {
            &&& 0 <= to < CHUNK
            &&& 0 <= tci
            &&& len - INLINE == tci * CHUNK + to
        }
    }

    /// Number of live elements in chunk `c` when the tail is at `(tci, to)`.
    spec fn live(c: int, tci: int, to: int) -> int {
        if c < tci {
            CHUNK as int
        } else if c == tci {
            to
        } else {
            0
        }
    }

    /// The tail position for `len` elements.
    spec fn tail_of(len: int) -> (int, int) {
        if len <= INLINE {
            (0, 0)
        } else {
            ((len - INLINE) / (CHUNK as int), (len - INLINE) % (CHUNK as int))
        }
    }

    spec fn storage_wf(&self, len: int, tci: int, to: int) -> bool {
        &&& self.inline@.len() == if len < INLINE { len } else { INLINE as int }
        &&& self.direct@.len() == DIRECT
        &&& 0 <= len <= Self::capacity()
        &&& Self::tail_matches(len, tci, to)
        &&& forall|c: int|
            0 <= c < DIRECT ==> {
                &&& (#[trigger] self.direct@[c]) is Some ==> self.direct@[c].unwrap()@.len()
                    == Self::live(c, tci, to)
                &&& Self::live(c, tci, to) > 0 ==> self.direct@[c] is Some
            }
    }

    /// The layout invariant.
    pub closed spec fn wf(&self) -> bool {
        &&& self.storage_wf(
            self.len as int,
            self.tail_chunk_index as int,
            self.tail_offset as int,
        )
        &&& self.current_chunk_ready ==> {
            &&& self.tail_chunk_index < DIRECT
            &&& self.direct@[self.tail_chunk_index as int] is Some
        }
        &&& self.len > INLINE ==> Self::capacity() <= usize::MAX
    }

    /// An empty vector with this layout; no chunk is allocated yet.
    pub fn with_layout() -> (v: Self)
        ensures
            v.wf(),
            v@ == Seq::<T>::empty(),
            v.allocated() == Seq::new(DIRECT as nat, |c: int| false),
    {
        let mut direct: Vec<Option<Vec<T>>> = Vec::new();
        let mut i: usize = 0;
        while i < DIRECT
            invariant
                i <= DIRECT,
                direct@.len() == i,
                forall|c: int| 0 <= c < i ==> (#[trigger] direct@[c]) is None,
            decreases DIRECT - i,
        {
            direct.push(None);
            i = i + 1;
        }
        let v = PagedSmallVec {
            direct,
            inline: Vec::with_capacity(INLINE),
            len: 0,
            tail_chunk_index: 0,
            tail_offset: 0,
            current_chunk_ready: false,
        };
        assert(v@ =~= Seq::<T>::empty());
        assert(v.allocated() =~= Seq::new(DIRECT as nat, |c: int| false));
        v
    }

    /// Allocates the chunk at the tail if it is missing and marks it as the
    /// chunk that the next write goes to.
    fn ensure_current_chunk(&mut self)
        requires
            old(self).wf(),
            old(self).tail_chunk_index < DIRECT,
        ensures
            final(self).wf(),
            final(self).current_chunk_ready,
            final(self)@ == old(self)@,
            final(self).len == old(self).len,
            final(self).tail_chunk_index == old(self).tail_chunk_index,
            final(self).tail_offset == old(self).tail_offset,
            final(self).inline == old(self).inline,
            final(self).direct@.len() == old(self).direct@.len(),
            final(self).allocated() == old(self).allocated().update(
                old(self).tail_chunk_index as int,
                true,
            ),
            forall|c: int|
                0 <= c < DIRECT && (c != old(self).tail_chunk_index || old(self).direct@[c] is Some)
                    ==> final(self).direct@[c] == old(self).direct@[c],
    {
        if self.current_chunk_ready {
            return;
        }
        let i: usize = self.tail_chunk_index;
        if self.direct[i].is_none() {
            self.direct.set(i, Some(Vec::with_capacity(CHUNK)));
        }
        self.current_chunk_ready = true;
        proof {
            assert forall|i: int| 0 <= i < self.len implies #[trigger] self.slot(i) == old(
                self,
            ).slot(i) by {
                if i >= INLINE {
                    lemma_locate(
                        i - INLINE,
                        CHUNK as int,
                        self.tail_chunk_index as int,
                        self.tail_offset as int,
                    );
                }
            }
            assert(self@ =~= old(self)@);
            assert(self.allocated() =~= old(self).allocated().update(
                self.tail_chunk_index as int,
                true,
            ));
        }
    }

    /// Appends `val` to the current chunk, which is the chunk at the tail.
    fn write_at_tail(&mut self, val: T)
        requires
            old(self).current_chunk_ready,
            old(self).tail_chunk_index < old(self).direct@.len(),
            old(self).direct@[old(self).tail_chunk_index as int] is Some,
        ensures
            final(self).direct@.len() == old(self).direct@.len(),
            forall|c: int|
                0 <= c < old(self).direct@.len() && c != old(self).tail_chunk_index
                    ==> final(self).direct@[c] == old(self).direct@[c],
            final(self).direct@[old(self).tail_chunk_index as int] is Some,
            final(self).direct@[old(self).tail_chunk_index as int].unwrap()@ == old(
                self,
            ).direct@[old(self).tail_chunk_index as int].unwrap()@.push(val),
            final(self).inline == old(self).inline,
            final(self).len == old(self).len,
            final(self).tail_chunk_index == old(self).tail_chunk_index,
            final(self).tail_offset == old(self).tail_offset,
            final(self).current_chunk_ready == old(self).current_chunk_ready,
    {
        let i: usize = self.tail_chunk_index;
        match &mut self.direct[i] {
            Some(chunk) => chunk.push(val),
            None => {},
        }
    }

    /// Moves the tail one slot forward, to the next chunk when this one is full.
    fn advance_tail(&mut self)
        requires
            old(self).tail_offset < CHUNK,
            old(self).tail_chunk_index < usize::MAX,
        ensures
            (final(self).tail_chunk_index as int, final(self).tail_offset as int)
                == Self::advanced_tail(
                old(self).tail_chunk_index as int,
                old(self).tail_offset as int,
            ),
            final(self).current_chunk_ready == (old(self).current_chunk_ready
                && final(self).tail_offset != 0),
            final(self).direct == old(self).direct,
            final(self).inline == old(self).inline,
            final(self).len == old(self).len,
    {
        self.tail_offset = self.tail_offset + 1;
        if self.tail_offset == CHUNK {
            self.tail_offset = 0;
            self.tail_chunk_index = self.tail_chunk_index + 1;
            self.current_chunk_ready = false;
        }
    }

    /// Appends `val` at the end.
    pub fn push(&mut self, val: T)
        requires
            old(self).wf(),
            old(self)@.len() < Self::capacity(),
            Self::capacity() <= usize::MAX,
        ensures
            final(self).wf(),
            final(self)@ == old(self)@.push(val),
            old(self)@.len() >= INLINE ==> 0 <= Self::chunk_of(old(self)@.len() as int) < DIRECT,
            final(self).allocated() == if old(self)@.len() >= INLINE {
                old(self).allocated().update(Self::chunk_of(old(self)@.len() as int), true)
            } else {
                old(self).allocated()
            },
            old(self)@.len() < INLINE || (old(self)@.len() - INLINE) % (CHUNK as int) != 0
                ==> final(self).allocated() == old(self).allocated(),
    {
        let ghost old_self = *self;
        if self.len < INLINE {
            self.inline.push(val);
            self.len = self.len + 1;
            proof {
                assert forall|i: int| 0 <= i < self.len implies #[trigger] self.slot(i) == old_self@.push(val)[i] by {
                    if i < old_self.len {
                        assert(old_self.slot(i) == old_self@[i]);
                    }
                }
                assert(self@ =~= old_self@.push(val));
                assert(self.allocated() =~= old_self.allocated());
            }
        } else {
            self.append_paged(val);
        }
    }

    /// Appends `val` behind a full inline region: the value goes to the tail
    /// chunk, which is allocated first when needed.
    fn append_paged(&mut self, val: T)
        requires
            old(self).wf(),
            INLINE <= old(self).len,
            old(self)@.len() < Self::capacity(),
            Self::capacity() <= usize::MAX,
        ensures
            final(self).wf(),
            final(self)@ == old(self)@.push(val),
            0 <= Self::chunk_of(old(self).len as int) < DIRECT,
            final(self).allocated() == old(self).allocated().update(
                Self::chunk_of(old(self).len as int),
                true,
            ),
            (old(self).len - INLINE) % (CHUNK as int) != 0 ==> final(self).allocated() == old(
                self,
            ).allocated(),
    {
        proof {
            let k: int = CHUNK as int;
            if k == 0 {
                assert(DIRECT * k == 0) by (nonlinear_arith)
                    requires
                        k == 0,
                ;
            }
            if DIRECT == 0 {
                assert(DIRECT * k == 0) by (nonlinear_arith)
                    requires
                        DIRECT == 0,
                ;
            }
            if self.tail_chunk_index >= DIRECT {
                lemma_mul_le(DIRECT as int, self.tail_chunk_index as int, k);
            }
        }
        self.ensure_current_chunk();
        let ghost mid = *self;
        self.write_at_tail(val);
        self.advance_tail();
        self.len = self.len + 1;
        proof {
            Self::lemma_append_at_tail(mid, *self, val);
            let k: int = CHUNK as int;
            let tci: int = old(self).tail_chunk_index as int;
            let to: int = old(self).tail_offset as int;
            if old(self).len == INLINE {
                assert(tci * k == 0) by (nonlinear_arith)
                    requires
                        tci == 0,
                ;
            }
            lemma_split_exact(old(self).len - INLINE, k, tci, to);
            assert(self.allocated() =~= mid.allocated());
            if to != 0 {
                assert(old(self).direct@[tci] is Some);
                assert(mid.allocated() =~= old(self).allocated());
            }
        }
    }

    /// Appending `val` to the current chunk and moving the tail forward keeps
    /// the layout and appends `val` to the contents.
    proof fn lemma_append_at_tail(pre: Self, post: Self, val: T)
        requires
            pre.wf(),
            INLINE <= pre.len,
            pre.len < Self::capacity() <= usize::MAX,
            CHUNK > 0,
            pre.tail_chunk_index < DIRECT,
            pre.direct@[pre.tail_chunk_index as int] is Some,
            post.inline == pre.inline,
            post.len == pre.len + 1,
            post.direct@.len() == pre.direct@.len(),
            forall|c: int|
                0 <= c < DIRECT && c != pre.tail_chunk_index ==> post.direct@[c]
                    == pre.direct@[c],
            post.direct@[pre.tail_chunk_index as int] is Some,
            post.direct@[pre.tail_chunk_index as int].unwrap()@ == pre.direct@[pre.tail_chunk_index as int].unwrap()@.push(val),
            pre.tail_offset + 1 < CHUNK ==> {
                &&& post.tail_chunk_index == pre.tail_chunk_index
                &&& post.tail_offset == pre.tail_offset + 1
                &&& post.current_chunk_ready == pre.current_chunk_ready
            },
            pre.tail_offset + 1 == CHUNK ==> {
                &&& post.tail_chunk_index == pre.tail_chunk_index + 1
                &&& post.tail_offset == 0
                &&& !post.current_chunk_ready
            },
        ensures
            post.wf(),
            post@ == pre@.push(val),
    {
        let k: int = CHUNK as int;
        let tci: int = pre.tail_chunk_index as int;
        let to: int = pre.tail_offset as int;
        if pre.len == INLINE {
            assert(tci * k == 0) by (nonlinear_arith)
                requires
                    tci == 0,
            ;
        }
        assert(pre.len - INLINE == tci * k + to);
        if to + 1 == k {
            lemma_next_multiple(tci, k);
        }
        assert(Self::tail_matches(
            post.len as int,
            post.tail_chunk_index as int,
            post.tail_offset as int,
        ));
        assert forall|c: int| 0 <= c < DIRECT implies {
            &&& (#[trigger] post.direct@[c]) is Some ==> post.direct@[c].unwrap()@.len()
                == Self::live(c, post.tail_chunk_index as int, post.tail_offset as int)
            &&& Self::live(c, post.tail_chunk_index as int, post.tail_offset as int) > 0
                ==> post.direct@[c] is Some
        } by {
            if c != tci {
                assert(pre.direct@[c] == post.direct@[c]);
            }
        }
        assert(post.storage_wf(
            post.len as int,
            post.tail_chunk_index as int,
            post.tail_offset as int,
        ));
        assert forall|i: int| 0 <= i < post.len implies #[trigger] post.slot(i) == pre@.push(
            val,
        )[i] by {
            if i < pre.len {
                assert(pre.slot(i) == pre@[i]);
                if i >= INLINE {
                    let p: int = i - INLINE;
                    lemma_locate(p, k, tci, to);
                    if p / k != tci {
                        assert(pre.direct@[p / k] == post.direct@[p / k]);
                    }
                }
            } else {
                lemma_chunk_slot(tci, k, to);
            }
        }
        assert(post@ =~= pre@.push(val));
    }

    /// Where the element at logical index `i` lives, for `INLINE <= i < len`.
    proof fn lemma_slot_location(&self, i: int)
        requires
            self.wf(),
            INLINE <= i < self.len,
        ensures
            CHUNK > 0,
            0 <= (i - INLINE) / (CHUNK as int) < DIRECT,
            0 <= (i - INLINE) % (CHUNK as int) < CHUNK,
            self.direct@[(i - INLINE) / (CHUNK as int)] is Some,
            (i - INLINE) % (CHUNK as int) < self.direct@[(i - INLINE) / (
            CHUNK as int)].unwrap()@.len(),
    {
        let k: int = CHUNK as int;
        let tci: int = self.tail_chunk_index as int;
        let to: int = self.tail_offset as int;
        lemma_locate(i - INLINE, k, tci, to);
        let c: int = (i - INLINE) / k;
        if c >= DIRECT {
            if c < tci {
                lemma_mul_le(DIRECT + 1, tci, k);
                lemma_next_multiple(DIRECT as int, k);
            } else {
                lemma_mul_le(DIRECT as int, c, k);
            }
            assert(false);
        }
        assert(Self::live(c, tci, to) > 0);
    }

    /// A reference to the element at `index`, which must be in bounds.
    pub fn get_unchecked(&self, index: usize) -> (r: &T)
        requires
            self.wf(),
            index < self@.len(),
        ensures
            *r == self@[index as int],
    {
        if index < INLINE {
            return &self.inline[index];
        }
        let paged_index: usize = index - INLINE;
        proof {
            self.lemma_slot_location(index as int);
        }
        let chunk_index: usize = paged_index / CHUNK;
        let offset: usize = paged_index % CHUNK;
        let chunk = self.direct[chunk_index].as_ref().unwrap();
        &chunk[offset]
    }

    /// A reference to the element at `index`, or `None` when `index` is out of bounds.
    pub fn get(&self, index: usize) -> (r: Option<&T>)
        requires
            self.wf(),
        ensures
            index < self@.len() ==> r == Some(&self@[index as int]),
            index >= self@.len() ==> r is None,
    {
        if index >= self.len {
            return None;
        }
        Some(self.get_unchecked(index))
    }

    /// Moves the tail one slot back, to the end of the previous chunk when it
    /// stands at the start of one.
    fn rewind_tail(&mut self)
        requires
            old(self).tail_offset > 0 || old(self).tail_chunk_index > 0,
            CHUNK > 0,
        ensures
            (final(self).tail_chunk_index as int, final(self).tail_offset as int)
                == Self::rewound_tail(
                old(self).tail_chunk_index as int,
                old(self).tail_offset as int,
            ),
            final(self).current_chunk_ready == (old(self).current_chunk_ready
                && old(self).tail_offset != 0),
            final(self).direct == old(self).direct,
            final(self).inline == old(self).inline,
            final(self).len == old(self).len,
    {
        if self.tail_offset == 0 {
            self.tail_chunk_index = self.tail_chunk_index - 1;
            self.tail_offset = CHUNK - 1;
            self.current_chunk_ready = false;
        } else {
            self.tail_offset = self.tail_offset - 1;
        }
    }

    /// Marks the tail chunk as the current chunk when it is allocated.
    fn refresh_current_chunk_ptr_for_read(&mut self)
        requires
            old(self).tail_chunk_index < old(self).direct@.len(),
        ensures
            final(self).current_chunk_ready == old(self).direct@[old(
                self,
            ).tail_chunk_index as int] is Some,
            final(self).direct == old(self).direct,
            final(self).inline == old(self).inline,
            final(self).len == old(self).len,
            final(self).tail_chunk_index == old(self).tail_chunk_index,
            final(self).tail_offset == old(self).tail_offset,
    {
        self.current_chunk_ready = self.direct[self.tail_chunk_index].is_some();
    }

    /// Takes the last element out of the current chunk.
    fn take_at_tail(&mut self) -> (r: T)
        requires
            old(self).current_chunk_ready,
            old(self).tail_chunk_index < old(self).direct@.len(),
            old(self).direct@[old(self).tail_chunk_index as int] is Some,
            old(self).direct@[old(self).tail_chunk_index as int].unwrap()@.len() > 0,
        ensures
            final(self).direct@.len() == old(self).direct@.len(),
            forall|c: int|
                0 <= c < old(self).direct@.len() && c != old(self).tail_chunk_index
                    ==> final(self).direct@[c] == old(self).direct@[c],
            final(self).direct@[old(self).tail_chunk_index as int] is Some,
            final(self).direct@[old(self).tail_chunk_index as int].unwrap()@ == old(
                self,
            ).direct@[old(self).tail_chunk_index as int].unwrap()@.drop_last(),
            r == old(self).direct@[old(self).tail_chunk_index as int].unwrap()@.last(),
            final(self).inline == old(self).inline,
            final(self).len == old(self).len,
            final(self).tail_chunk_index == old(self).tail_chunk_index,
            final(self).tail_offset == old(self).tail_offset,
            final(self).current_chunk_ready == old(self).current_chunk_ready,
    {
        let i: usize = self.tail_chunk_index;
        let mut chunk = self.direct[i].take().unwrap();
        let r = chunk.pop().unwrap();
        self.direct.set(i, Some(chunk));
        r
    }

    /// Removes the last element and returns it, or `None` when the vector is empty.
    pub fn pop(&mut self) -> (r: Option<T>)
        requires
            old(self).wf(),
        ensures
            final(self).wf(),
            old(self)@.len() == 0 ==> r is None && final(self)@ == old(self)@,
            old(self)@.len() > 0 ==> r == Some(old(self)@.last()) && final(self)@ == old(
                self,
            )@.drop_last(),
            final(self).allocated() == old(self).allocated(),
    {
        if self.len < 1 {
            return None;
        }
        let ghost old_self = *self;
        let popped = if self.len <= INLINE {
            self.inline.pop().unwrap()
        } else {
            proof {
                self.lemma_slot_location(self.len - 1);
            }
            self.rewind_tail();
            proof {
                let k: int = CHUNK as int;
                let tci: int = old_self.tail_chunk_index as int;
                if old_self.tail_offset == 0 {
                    lemma_next_multiple(tci - 1, k);
                }
                lemma_split_exact(
                    self.len - 1 - INLINE,
                    k,
                    self.tail_chunk_index as int,
                    self.tail_offset as int,
                );
            }
            self.refresh_current_chunk_ptr_for_read();
            self.take_at_tail()
        };
        self.len = self.len - 1;
        proof {
            let k: int = CHUNK as int;
            let n: int = self.len as int;
            if old_self.len > INLINE {
                let tci: int = old_self.tail_chunk_index as int;
                let to: int = old_self.tail_offset as int;
                if to == 0 {
                    lemma_next_multiple(tci - 1, k);
                }
                if n == INLINE && self.tail_chunk_index > 0 {
                    lemma_mul_le(1, self.tail_chunk_index as int, k);
                }
            }
            assert forall|i: int| 0 <= i < n implies #[trigger] self.slot(i) == old_self.slot(i) by {
                if old_self.len > INLINE && i >= INLINE {
                    lemma_locate(
                        i - INLINE,
                        k,
                        self.tail_chunk_index as int,
                        self.tail_offset as int,
                    );
                }
            }
            assert(self@ =~= old_self@.drop_last());
            if old_self.len > INLINE {
                lemma_chunk_slot(self.tail_chunk_index as int, k, self.tail_offset as int);
            }
            assert(popped == old_self.slot(n));
            assert(self.allocated() =~= old_self.allocated());
        }
        Some(popped)
    }

    /// `tail_of(len)` matches `len` once the chunks have a size.
    proof fn lemma_tail_of_matches(len: int)
        requires
            len <= INLINE || CHUNK > 0,
        ensures
            Self::tail_matches(len, Self::tail_of(len).0, Self::tail_of(len).1),
    {
        if len > INLINE {
            let k: int = CHUNK as int;
            vstd::arithmetic::div_mod::lemma_fundamental_div_mod(len - INLINE, k);
            vstd::arithmetic::div_mod::lemma_mod_pos_bound(len - INLINE, k);
            vstd::arithmetic::div_mod::lemma_div_pos_is_pos(len - INLINE, k);
            assert((len - INLINE) / k * k == k * ((len - INLINE) / k)) by (nonlinear_arith);
        }
    }

    /// Takes the element at index `len - 1` out of its region; the length and
    /// the tail fields are left for the caller to update.
    fn take_last_slot(&mut self) -> (r: T)
        requires
            old(self).wf(),
            old(self).len > 0,
        ensures
            r == old(self)@.last(),
            final(self).storage_wf(
                old(self).len - 1,
                Self::tail_of(old(self).len - 1).0,
                Self::tail_of(old(self).len - 1).1,
            ),
            forall|i: int| 0 <= i < old(self).len - 1 ==> #[trigger] final(self).slot(i) == old(
                self,
            ).slot(i),
            forall|c: int|
                0 <= c < DIRECT ==> (#[trigger] final(self).direct@[c] is Some) == old(
                    self,
                ).direct@[c] is Some,
            final(self).len == old(self).len,
            final(self).tail_chunk_index == old(self).tail_chunk_index,
            final(self).tail_offset == old(self).tail_offset,
            final(self).current_chunk_ready == old(self).current_chunk_ready,
    {
        let last: usize = self.len - 1;
        if last < INLINE {
            let r = self.inline.pop().unwrap();
            proof {
                assert(old(self).slot(last as int) == old(self)@.last());
            }
            return r;
        }
        proof {
            old(self).lemma_slot_location(last as int);
        }
        let paged_index: usize = last - INLINE;
        let chunk_index: usize = paged_index / CHUNK;
        let mut chunk = self.direct[chunk_index].take().unwrap();
        let r = chunk.pop().unwrap();
        self.direct.set(chunk_index, Some(chunk));
        proof {
            let k: int = CHUNK as int;
            let tci: int = old(self).tail_chunk_index as int;
            let to: int = old(self).tail_offset as int;
            let n: int = old(self).len - 1;
            if to == 0 {
                lemma_next_multiple(tci - 1, k);
                lemma_split_exact(paged_index as int, k, tci - 1, k - 1);
            } else {
                lemma_split_exact(paged_index as int, k, tci, to - 1);
            }
            let (t1, t2) = Self::tail_of(n);
            if n > INLINE {
                Self::lemma_tail_of_matches(n);
            } else if tci > 0 {
                lemma_mul_le(1, tci, k);
            }
            assert(old(self).slot(last as int) == old(self)@.last());
            assert forall|c: int| 0 <= c < DIRECT implies {
                &&& (#[trigger] self.direct@[c]) is Some ==> self.direct@[c].unwrap()@.len()
                    == Self::live(c, t1, t2)
                &&& Self::live(c, t1, t2) > 0 ==> self.direct@[c] is Some
            } by {
                if c != chunk_index {
                    assert(old(self).direct@[c] == self.direct@[c]);
                }
            }
            assert forall|i: int| 0 <= i < n implies #[trigger] self.slot(i) == old(self).slot(
                i,
            ) by {
                if i >= INLINE {
                    lemma_locate(i - INLINE, k, tci, to);
                    if (i - INLINE) / k != chunk_index {
                        assert(old(self).direct@[(i - INLINE) / k] == self.direct@[(i - INLINE)
                            / k]);
                    } else {
                        vstd::arithmetic::div_mod::lemma_fundamental_div_mod(i - INLINE, k);
                        vstd::arithmetic::div_mod::lemma_fundamental_div_mod(
                            paged_index as int,
                            k,
                        );
                        assert((i - INLINE) % k < (paged_index as int) % k);
                    }
                }
            }
        }
        r
    }

    /// Marks the tail chunk as the current chunk when the next push writes
    /// into an allocated chunk that already holds elements.
    fn refresh_current_chunk_ptr_for_write(&mut self)
        requires
            old(self).direct@.len() == DIRECT,
            old(self).len >= INLINE ==> Self::capacity() <= usize::MAX,
            old(self).tail_chunk_index < DIRECT || old(self).len < INLINE || old(self).len
                >= Self::capacity() || old(self).tail_offset == 0,
        ensures
            final(self).current_chunk_ready == (!(old(self).len < INLINE || old(self).len
                >= Self::capacity() || old(self).tail_offset == 0) && old(
                self,
            ).direct@[old(self).tail_chunk_index as int] is Some),
            final(self).direct == old(self).direct,
            final(self).inline == old(self).inline,
            final(self).len == old(self).len,
            final(self).tail_chunk_index == old(self).tail_chunk_index,
            final(self).tail_offset == old(self).tail_offset,
    {
        if self.len < INLINE || self.len >= INLINE + DIRECT * CHUNK || self.tail_offset == 0 {
            self.current_chunk_ready = false;
            return;
        }
        self.current_chunk_ready = self.direct[self.tail_chunk_index].is_some();
    }

    /// Recomputes the tail position from the length.
    fn refresh_tail(&mut self)
        requires
            old(self).storage_wf(
                old(self).len as int,
                Self::tail_of(old(self).len as int).0,
                Self::tail_of(old(self).len as int).1,
            ),
            old(self).len > INLINE ==> Self::capacity() <= usize::MAX,
        ensures
            final(self).wf(),
            (final(self).tail_chunk_index as int, final(self).tail_offset as int) == Self::tail_of(
                old(self).len as int,
            ),
            old(self).len <= INLINE ==> !final(self).current_chunk_ready,
            old(self).len > INLINE ==> final(self).current_chunk_ready == (old(self).len
                < Self::capacity() && Self::tail_of(old(self).len as int).1 != 0
                && old(self).direct@[Self::tail_of(old(self).len as int).0] is Some),
            final(self).direct == old(self).direct,
            final(self).inline == old(self).inline,
            final(self).len == old(self).len,
    {
        if self.len <= INLINE {
            self.tail_chunk_index = 0;
            self.tail_offset = 0;
            self.current_chunk_ready = false;
            return;
        }
        let paged_len: usize = self.len - INLINE;
        self.tail_chunk_index = paged_len / CHUNK;
        self.tail_offset = paged_len % CHUNK;
        proof {
            if self.tail_chunk_index >= DIRECT && self.tail_offset != 0 {
                lemma_mul_le(DIRECT as int, self.tail_chunk_index as int, CHUNK as int);
            }
        }
        self.refresh_current_chunk_ptr_for_write();
    }

    /// Puts `val` at `index` and returns the element that was there.
    fn replace_slot(&mut self, index: usize, val: T) -> (r: T)
        requires
            old(self).wf(),
            index < old(self).len,
        ensures
            final(self).wf(),
            r == old(self)@[index as int],
            final(self)@ == old(self)@.update(index as int, val),
            final(self).allocated() == old(self).allocated(),
    {
        let mut v = val;
        if index < INLINE {
            std::mem::swap(&mut self.inline[index], &mut v);
            proof {
                assert(self@ =~= old(self)@.update(index as int, val));
                assert(self.allocated() =~= old(self).allocated());
            }
            return v;
        }
        proof {
            old(self).lemma_slot_location(index as int);
        }
        let paged_index: usize = index - INLINE;
        let chunk_index: usize = paged_index / CHUNK;
        let offset: usize = paged_index % CHUNK;
        let mut chunk = self.direct[chunk_index].take().unwrap();
        std::mem::swap(&mut chunk[offset], &mut v);
        self.direct.set(chunk_index, Some(chunk));
        proof {
            let k: int = CHUNK as int;
            assert forall|c: int| 0 <= c < DIRECT implies {
                &&& (#[trigger] self.direct@[c]) is Some ==> self.direct@[c].unwrap()@.len()
                    == Self::live(c, self.tail_chunk_index as int, self.tail_offset as int)
                &&& Self::live(c, self.tail_chunk_index as int, self.tail_offset as int) > 0
                    ==> self.direct@[c] is Some
            } by {
                if c != chunk_index {
                    assert(old(self).direct@[c] == self.direct@[c]);
                }
            }
            assert forall|i: int| 0 <= i < self.len implies #[trigger] self.slot(i) == old(
                self,
            )@.update(index as int, val)[i] by {
                if i >= INLINE && i != index {
                    let p: int = i - INLINE;
                    old(self).lemma_slot_location(i);
                    if p / k != chunk_index {
                        assert(old(self).direct@[p / k] == self.direct@[p / k]);
                    } else {
                        vstd::arithmetic::div_mod::lemma_fundamental_div_mod(p, k);
                        vstd::arithmetic::div_mod::lemma_fundamental_div_mod(
                            paged_index as int,
                            k,
                        );
                    }
                }
            }
            assert(self@ =~= old(self)@.update(index as int, val));
            assert(self.allocated() =~= old(self).allocated());
        }
        v
    }

    /// Removes the element at `index`, shifting every later element one place
    /// to the front; `None` when `index` is out of bounds.
    pub fn remove(&mut self, index: usize) -> (r: Option<T>)
        requires
            old(self).wf(),
        ensures
            final(self).wf(),
            index < old(self)@.len() ==> r == Some(old(self)@[index as int]) && final(self)@
                == old(self)@.remove(index as int),
            index >= old(self)@.len() ==> r is None && final(self)@ == old(self)@,
            final(self).allocated() == old(self).allocated(),
    {
        if index >= self.len {
            return None;
        }
        let ghost s = self@;
        let ghost pre = *self;
        let mut carry = self.take_last_slot();
        let ghost mid = *self;
        self.len = self.len - 1;
        proof {
            assert forall|i: int| 0 <= i < self.len implies #[trigger] self.slot(i) == s[i] by {
                assert(mid.slot(i) == pre.slot(i));
            }
            assert(self@ =~= s.drop_last());
        }
        let ghost shrunk = *self;
        self.refresh_tail();
        proof {
            assert(self@ =~= shrunk@);
            assert(self.allocated() =~= pre.allocated());
            assert(self@ =~= s.subrange(0, self.len as int) + s.subrange(
                self.len + 1,
                s.len() as int,
            ));
        }
        let mut i: usize = self.len;
        while i > index
            invariant
                self.wf(),
                index <= i <= self.len,
                self.len == s.len() - 1,
                self@ =~= s.subrange(0, i as int) + s.subrange(i + 1, s.len() as int),
                carry == s[i as int],
                self.allocated() == pre.allocated(),
            decreases i,
        {
            i = i - 1;
            carry = self.replace_slot(i, carry);
            proof {
                assert(self@ =~= s.subrange(0, i as int) + s.subrange(i + 1, s.len() as int));
            }
        }
        proof {
            assert(self@ =~= s.remove(index as int));
        }
        Some(carry)
    }

    /// Removes the element at `index` and puts the last element in its place;
    /// `None` when `index` is out of bounds.
    pub fn swap_remove(&mut self, index: usize) -> (r: Option<T>)
        requires
            old(self).wf(),
        ensures
            final(self).wf(),
            index < old(self)@.len() ==> r == Some(old(self)@[index as int]) && final(self)@
                == old(self)@.update(index as int, old(self)@.last()).drop_last(),
            index >= old(self)@.len() ==> r is None && final(self)@ == old(self)@,
            final(self).allocated() == old(self).allocated(),
    {
        if index >= self.len {
            return None;
        }
        let ghost s = self@;
        let last: usize = self.len - 1;
        let ghost pre = *self;
        let last_value = self.take_last_slot();
        let ghost mid = *self;
        self.len = self.len - 1;
        proof {
            assert forall|i: int| 0 <= i < self.len implies #[trigger] self.slot(i) == s[i] by {
                assert(mid.slot(i) == pre.slot(i));
            }
            assert(self@ =~= s.drop_last());
        }
        let ghost shrunk = *self;
        self.refresh_tail();
        proof {
            assert(self@ =~= shrunk@);
            assert(self.allocated() =~= pre.allocated());
        }
        if index == last {
            proof {
                assert(s.update(index as int, s.last()).drop_last() =~= s.drop_last());
            }
            return Some(last_value);
        }
        let removed = self.replace_slot(index, last_value);
        proof {
            assert(self@ =~= s.update(index as int, s.last()).drop_last());
        }
        Some(removed)
    }

    /// Appends clones of `values`, in order.
    pub fn extend_from_slice(&mut self, values: &[T])
        where
            T: Clone,
        requires
            old(self).wf(),
            old(self)@.len() + values@.len() <= Self::capacity(),
            Self::capacity() <= usize::MAX,
        ensures
            final(self).wf(),
            final(self)@.len() == old(self)@.len() + values@.len(),
            final(self)@.subrange(0, old(self)@.len() as int) == old(self)@,
            forall|j: int|
                0 <= j < values@.len() ==> cloned::<T>(
                    #[trigger] values@[j],
                    final(self)@[old(self)@.len() + j],
                ),
            forall|c: int|
                0 <= c < DIRECT ==> #[trigger] final(self).allocated()[c] == (old(
                    self,
                ).allocated()[c] || Self::chunk_touched(
                    old(self)@.len() as int,
                    final(self)@.len() as int,
                    c,
                )),
    {
        let ghost s = self@;
        let ghost alloc0 = self.allocated();
        assert(alloc0.len() == DIRECT);
        let mut next: usize = 0;
        while self.len < INLINE
            invariant_except_break
                self.wf(),
                next <= values@.len(),
                self@.len() == s.len() + next,
                self@.subrange(0, s.len() as int) == s,
                forall|j: int|
                    0 <= j < next ==> cloned::<T>(values@[j], #[trigger] self@[s.len() + j]),
                s.len() + values@.len() <= Self::capacity() <= usize::MAX,
                alloc0.len() == DIRECT,
                forall|c: int|
                    0 <= c < DIRECT ==> #[trigger] self.allocated()[c] == (alloc0[c]
                        || Self::chunk_touched(s.len() as int, self@.len() as int, c)),
            ensures
                self.wf(),
                next <= values@.len(),
                self@.len() == s.len() + next,
                self@.subrange(0, s.len() as int) == s,
                forall|j: int|
                    0 <= j < next ==> cloned::<T>(values@[j], #[trigger] self@[s.len() + j]),
                alloc0.len() == DIRECT,
                forall|c: int|
                    0 <= c < DIRECT ==> #[trigger] self.allocated()[c] == (alloc0[c]
                        || Self::chunk_touched(s.len() as int, self@.len() as int, c)),
                next < values@.len() ==> self.len >= INLINE,
            decreases INLINE - self.len,
        {
            if next == values.len() {
                break;
            }
            let value = values[next].clone();
            let ghost before = self@;
            let ghost pre_alloc = self.allocated();
            self.push(value);
            proof {
                assert(self@[s.len() + next] == value);
                assert forall|j: int| 0 <= j < next implies cloned::<T>(
                    values@[j],
                    #[trigger] self@[s.len() + j],
                ) by {
                    assert(self@[s.len() + j] == before[s.len() + j]);
                }
                assert(self@.subrange(0, s.len() as int) =~= before.subrange(0, s.len() as int));
                assert forall|c: int| 0 <= c < DIRECT implies #[trigger] self.allocated()[c] == (
                alloc0[c] || Self::chunk_touched(s.len() as int, self@.len() as int, c)) by {
                    Self::lemma_touched_step(s.len() as int, before.len() as int, c);
                    assert(pre_alloc[c] == (alloc0[c] || Self::chunk_touched(
                        s.len() as int,
                        before.len() as int,
                        c,
                    )));
                }
            }
            next = next + 1;
        }
        while next < values.len()
            invariant
                self.wf(),
                INLINE <= self.len || next == values@.len(),
                next <= values@.len(),
                self@.len() == s.len() + next,
                self@.subrange(0, s.len() as int) == s,
                forall|j: int|
                    0 <= j < next ==> cloned::<T>(values@[j], #[trigger] self@[s.len() + j]),
                s.len() + values@.len() <= Self::capacity() <= usize::MAX,
                alloc0.len() == DIRECT,
                forall|c: int|
                    0 <= c < DIRECT ==> #[trigger] self.allocated()[c] == (alloc0[c]
                        || Self::chunk_touched(s.len() as int, self@.len() as int, c)),
            decreases values@.len() - next,
        {
            let value = values[next].clone();
            let ghost before = self@;
            let ghost pre_alloc = self.allocated();
            self.append_paged(value);
            proof {
                assert(self@[s.len() + next] == value);
                assert forall|j: int| 0 <= j < next implies cloned::<T>(
                    values@[j],
                    #[trigger] self@[s.len() + j],
                ) by {
                    assert(self@[s.len() + j] == before[s.len() + j]);
                }
                assert(self@.subrange(0, s.len() as int) =~= before.subrange(0, s.len() as int));
                assert forall|c: int| 0 <= c < DIRECT implies #[trigger] self.allocated()[c] == (
                alloc0[c] || Self::chunk_touched(s.len() as int, self@.len() as int, c)) by {
                    Self::lemma_touched_step(s.len() as int, before.len() as int, c);
                    assert(pre_alloc[c] == (alloc0[c] || Self::chunk_touched(
                        s.len() as int,
                        before.len() as int,
                        c,
                    )));
                }
            }
            next = next + 1;
        }
    }

    /// The pieces that chunk iteration hands out for the contents `s`: the
    /// inline region, then one piece per chunk in use.
    pub open spec fn chunks_of(s: Seq<T>) -> Seq<Seq<T>> {
        split_chunks(s, INLINE as int, CHUNK as int)
    }

    /// The contents of chunk `c` are the elements from `INLINE + c * CHUNK`
    /// up to the end of that chunk or of the vector.
    proof fn lemma_chunk_contents(&self, c: int)
        requires
            self.wf(),
            0 <= c,
            INLINE + c * CHUNK < self.len,
        ensures
            c < DIRECT,
            self.direct@[c] is Some,
            self.direct@[c].unwrap()@ == page(self@, INLINE as int, CHUNK as int, c),
            self.direct@[c].unwrap()@.len() == if self.len - INLINE - c * CHUNK < CHUNK {
                self.len - INLINE - c * CHUNK
            } else {
                CHUNK as int
            },
    {
        let k: int = CHUNK as int;
        let tci: int = self.tail_chunk_index as int;
        let to: int = self.tail_offset as int;
        lemma_chunk_slot(c, k, 0);
        self.lemma_slot_location(INLINE + c * k);
        if c < tci {
            lemma_mul_le(c + 1, tci, k);
            lemma_next_multiple(c, k);
        }
        let chunk = self.direct@[c].unwrap()@;
        let piece = page(self@, INLINE as int, k, c);
        assert forall|o: int| 0 <= o < chunk.len() implies #[trigger] chunk[o] == piece[o] by {
            lemma_chunk_slot(c, k, o);
            assert(self@[INLINE + c * k + o] == self.slot(INLINE + c * k + o));
        }
        assert(chunk =~= piece);
    }

    /// Iterates over the contents one region at a time: the inline region
    /// first, then each chunk in use.
    pub fn chunks(&self) -> (it: ChunkIter<'_, T, INLINE, DIRECT, CHUNK>)
        requires
            self.wf(),
        ensures
            it.wf(),
            it.rest() == Self::chunks_of(self@),
    {
        let it = ChunkIter { vec: self, remaining: self.len, next_chunk_index: 0, yielded_inline: false };
        proof {
            assert(it.rest() =~= Self::chunks_of(self@));
        }
        it
    }

    /// Calls `f` on each piece that [`Self::chunks`] hands out, in order.
    ///
    /// The contract states that `f` has run on a slice equal to each piece.
    /// Verus treats a call of an `FnMut` closure as leaving the closure
    /// unchanged, so the number and order of the calls cannot be observed in a
    /// specification and are not stated here.
    pub fn for_each_chunk(&self, mut f: impl FnMut(&[T]))
        requires
            self.wf(),
            forall|piece: &[T]| f.requires((piece,)),
        ensures
            forall|j: int|
                #![trigger Self::chunks_of(self@)[j]]
                0 <= j < Self::chunks_of(self@).len() ==> exists|piece: &[T]|
                    piece@ == Self::chunks_of(self@)[j] && #[trigger] f.ensures((piece,), ()),
    {
        let ghost pieces = Self::chunks_of(self@);
        let ghost f0 = f;
        let mut it = self.chunks();
        let ghost mut done: int = 0;
        let mut next = it.next();
        while next.is_some()
            invariant
                it.wf(),
                0 <= done <= pieces.len(),
                match next {
                    Some(piece) => {
                        &&& done < pieces.len()
                        &&& piece@ == pieces[done]
                        &&& it.rest() == pieces.skip(done + 1)
                    },
                    None => done == pieces.len(),
                },
                f == f0,
                forall|piece: &[T]| f.requires((piece,)),
                forall|j: int|
                    #![trigger pieces[j]]
                    0 <= j < done ==> exists|piece: &[T]|
                        piece@ == pieces[j] && #[trigger] f0.ensures((piece,), ()),
            decreases pieces.len() - done,
        {
            let chunk = next.unwrap();
            f(chunk);
            proof {
                done = done + 1;
            }
            next = it.next();
            proof {
                if done < pieces.len() {
                    assert(pieces.skip(done) =~= pieces.skip(done - 1).drop_first());
                }
            }
        }
    }

    /// The pieces that chunk iteration hands out concatenate to the contents.
    pub proof fn lemma_chunks_concatenate(&self)
        requires
            self.wf(),
        ensures
            Self::chunks_of(self@).flatten() == self@,
            CHUNK > 0 || self@.len() <= INLINE,
    {
        if self.len > INLINE {
            self.lemma_slot_location(self.len - 1);
        }
        lemma_split_chunks_flatten(self@, INLINE as int, CHUNK as int);
    }

    /// A vector never holds more than its layout has room for.
    pub proof fn lemma_len_within_capacity(&self)
        requires
            self.wf(),
        ensures
            self@.len() <= Self::capacity(),
    {
    }

    /// `f` has been called on a reference to each of the first `n` elements of `s`.
    pub open spec fn visited<F: FnMut(&T)>(f: F, s: Seq<T>, n: int) -> bool {
        forall|i: int|
            #![trigger s[i]]
            0 <= i < n ==> exists|x: &T| *x == s[i] && #[trigger] f.ensures((x,), ())
    }

    /// Calls `f` on each element, in order.
    ///
    /// As for [`Self::for_each_chunk`], the contract states that `f` has run on
    /// each element; the number and order of the calls cannot be observed in a
    /// specification.
    pub fn for_each_ref(&self, mut f: impl FnMut(&T))
        requires
            self.wf(),
            forall|x: &T| f.requires((x,)),
        ensures
            Self::visited(f, self@, self@.len() as int),
    {
        let ghost pieces = Self::chunks_of(self@);
        let ghost f0 = f;
        proof {
            self.lemma_chunks_concatenate();
        }
        let mut it = self.chunks();
        let ghost mut done: int = 0;
        let mut next = it.next();
        while next.is_some()
            invariant
                it.wf(),
                pieces.flatten() == self@,
                0 <= done <= pieces.len(),
                match next {
                    Some(piece) => {
                        &&& done < pieces.len()
                        &&& piece@ == pieces[done]
                        &&& it.rest() == pieces.skip(done + 1)
                    },
                    None => done == pieces.len(),
                },
                f == f0,
                forall|x: &T| f.requires((x,)),
                Self::visited(f0, self@, pieces.take(done).flatten().len() as int),
            decreases pieces.len() - done,
        {
            let chunk = next.unwrap();
            let ghost off = pieces.take(done).flatten().len() as int;
            proof {
                lemma_flatten_piece(pieces, done);
            }
            let mut j: usize = 0;
            while j < chunk.len()
                invariant
                    j <= chunk@.len(),
                    0 <= off,
                    self@.subrange(off, off + chunk@.len()) == chunk@,
                    off + chunk@.len() <= self@.len(),
                    f == f0,
                    forall|x: &T| f.requires((x,)),
                    Self::visited(f0, self@, off + j),
                decreases chunk@.len() - j,
            {
                let x = &chunk[j];
                f(x);
                proof {
                    assert(self@[off + j] == self@.subrange(off, off + chunk@.len())[j as int]);
                    assert forall|i: int| #![trigger self@[i]] 0 <= i < off + j + 1 implies exists|y: &T|
                        *y == self@[i] && #[trigger] f0.ensures((y,), ()) by {
                        if i == off + j {
                            assert(*x == self@[i] && f0.ensures((x,), ()));
                        }
                    }
                }
                j = j + 1;
            }
            proof {
                done = done + 1;
            }
            next = it.next();
            proof {
                if done < pieces.len() {
                    assert(pieces.skip(done) =~= pieces.skip(done - 1).drop_first());
                }
            }
        }
        proof {
            assert(pieces.take(done) =~= pieces);
            assert(Self::visited(f0, self@, self@.len() as int));
            assert forall|i: int| #![trigger self@[i]] 0 <= i < self@.len() implies exists|x: &T|
                *x == self@[i] && #[trigger] f.ensures((x,), ()) by {
                let x = choose|x: &T| *x == self@[i] && #[trigger] f0.ensures((x,), ());
                assert(f0.ensures((x,), ()));
                assert(f.ensures((x,), ()));
            }
            assert(f == f0);
        }
    }

    /// The number of elements.
    pub fn len(&self) -> (n: usize)
        ensures
            n == self@.len(),
    {
        self.len
    }
}

/// Hands out the contents of a [`PagedSmallVec`] as slices, one region at a time.
pub struct ChunkIter<'a, T, const INLINE: usize, const DIRECT: usize, const CHUNK: usize> {
    vec: &'a PagedSmallVec<T, INLINE, DIRECT, CHUNK>,
    remaining: usize,
    next_chunk_index: usize,
    yielded_inline: bool,
}

impl<'a, T, const INLINE: usize, const DIRECT: usize, const CHUNK: usize> ChunkIter<
    'a,
    T,
    INLINE,
    DIRECT,
    CHUNK,
> {
    /// How many pieces have been handed out.
    spec fn position(&self) -> int {
        (if self.yielded_inline && head_len(self.vec.len as int, INLINE as int) > 0 {
            1int
        } else {
            0int
        }) + self.next_chunk_index
    }

    /// The pieces still to come.
    pub closed spec fn rest(&self) -> Seq<Seq<T>> {
        PagedSmallVec::<T, INLINE, DIRECT, CHUNK>::chunks_of(self.vec@).skip(self.position())
    }

    /// The iteration state is consistent with the vector it reads.
    pub closed spec fn wf(&self) -> bool {
        &&& self.vec.wf()
        &&& self.remaining <= self.vec.len
        &&& !self.yielded_inline ==> self.remaining == self.vec.len && self.next_chunk_index == 0
        &&& self.yielded_inline && self.remaining > 0 ==> {
            &&& INLINE < self.vec.len
            &&& self.vec.len - self.remaining == INLINE + self.next_chunk_index * CHUNK
        }
        &&& self.yielded_inline && self.remaining == 0 ==> self.position()
            == PagedSmallVec::<T, INLINE, DIRECT, CHUNK>::chunks_of(self.vec@).len()
    }

    /// The next piece, or `None` when every piece has been handed out.
    pub fn next(&mut self) -> (r: Option<&'a [T]>)
        requires
            old(self).wf(),
        ensures
            final(self).wf(),
            match r {
                None => old(self).rest().len() == 0 && final(self).rest() == old(self).rest(),
                Some(piece) => {
                    &&& old(self).rest().len() > 0
                    &&& piece@ == old(self).rest()[0]
                    &&& final(self).rest() == old(self).rest().drop_first()
                },
            },
    {
        let ghost s = self.vec@;
        let ghost pieces = PagedSmallVec::<T, INLINE, DIRECT, CHUNK>::chunks_of(s);
        let ghost n = self.vec.len as int;
        let ghost k = CHUNK as int;
        proof {
            if k > 0 && n > INLINE {
                lemma_page_count_bounds(n - INLINE, k);
            } else if k > 0 {
                assert((k - 1) / k == 0) by (nonlinear_arith)
                    requires
                        k > 0,
                ;
            }
        }
        if self.remaining == 0 {
            proof {
                if !self.yielded_inline {
                    assert(pieces =~= Seq::<Seq<T>>::empty());
                }
            }
            return None;
        }
        let v: &'a PagedSmallVec<T, INLINE, DIRECT, CHUNK> = self.vec;
        if !self.yielded_inline {
            self.yielded_inline = true;
            let inline_len: usize = if self.remaining < INLINE {
                self.remaining
            } else {
                INLINE
            };
            if inline_len > 0 {
                self.remaining = self.remaining - inline_len;
                proof {
                    assert(v.inline@ =~= s.take(inline_len as int));
                    assert(self.rest() =~= old(self).rest().drop_first());
                    if self.remaining > 0 {
                        assert(0 * k == 0) by (nonlinear_arith);
                    }
                }
                return Some(v.inline.as_slice());
            }
        }
        let ghost c = self.next_chunk_index as int;
        proof {
            if !old(self).yielded_inline {
                assert(0 * k == 0) by (nonlinear_arith);
            }
            v.lemma_chunk_contents(c);
        }
        let chunk_len: usize = if self.remaining < CHUNK {
            self.remaining
        } else {
            CHUNK
        };
        let chunk = v.direct[self.next_chunk_index].as_ref().unwrap();
        self.remaining = self.remaining - chunk_len;
        self.next_chunk_index = self.next_chunk_index + 1;
        proof {
            let pc: int = page_count(n, INLINE as int, k);
            lemma_next_multiple(c, k);
            if pc > c + 1 {
                lemma_mul_le(c + 1, pc - 1, k);
            }
            if pc < c + 1 {
                lemma_mul_le(pc, c, k);
            }
            assert(pc > c);
            assert(self.rest() =~= old(self).rest().drop_first());
        }
        Some(chunk.as_slice())
    }
}

impl<T, const INLINE: usize, const DIRECT: usize, const CHUNK: usize> View for PagedSmallVec<
    T,
    INLINE,
    DIRECT,
    CHUNK,
> {
    type V = Seq<T>;

    /// The elements in logical order.
    closed spec fn view(&self) -> Seq<T> {
        Seq::new(self.len as nat, |i: int| self.slot(i))
    }
}

impl<T> PagedSmallVec<T, DEFAULT_INLINE, DEFAULT_DIRECT, DEFAULT_CHUNK> {
    /// An empty vector with the default layout.
    pub fn new() -> (v: Self)
        ensures
            v.wf(),
            v@ == Seq::<T>::empty(),
            v.allocated() == Seq::new(DEFAULT_DIRECT as nat, |c: int| false),
    {
        Self::with_layout()
    }
}

} // verus!
