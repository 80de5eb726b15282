//! Fixed-size buffers of records, and the pool that recycles them.
//!
//! A chunk holds up to `CHUNK_SIZE` bytes of records. Chunks are handed out
//! by a pool, filled through a writer, read, and offered back to the pool.

use vstd::prelude::*;
use vstd::layout::size_of;
use vstd::std_specs::convert::FromSpecImpl;
use crate::stats::{chunk_allocated, chunk_deallocated, wrapped_sum, Counters};

verus! {

/// Size of a chunk in MiB.
pub const CHUNK_MB: usize = 64;

/// Size of a chunk in bytes.
pub const CHUNK_SIZE: usize = 67_108_864;

/// A buffer of up to `CHUNK_SIZE` bytes of records of type `T`.
pub struct Chunk<T: Copy> {
    items: Vec<T>,
}

/// A chunk that is being filled.
pub struct ChunkWriter<T: Copy> {
    chunk: Chunk<T>,
}

/// The pool of chunks that are free for use.
pub struct ChunkVec<T: Copy> {
    chunks: Vec<Chunk<T>>,
}

impl<T: Copy> View for Chunk<T> {
    type V = Seq<T>;

    /// The records of the chunk, in the order in which they were written.
    closed spec fn view(&self) -> Seq<T> {
        self.items@
    }
}

impl<T: Copy> Chunk<T> {
    /// Number of records that fit into a chunk; none where a record takes
    /// no space.
    pub open spec fn spec_cap() -> nat {
        if size_of::<T>() == 0 {
            0
        } else {
            CHUNK_SIZE as nat / size_of::<T>()
        }
    }

    /// The chunk holds no more records than fit.
    pub open spec fn wf(&self) -> bool {
        self@.len() <= Self::spec_cap()
    }

    /// A fresh, empty chunk. It is counted as allocated.
    fn new(counters: &mut Counters) -> (c: Chunk<T>)
        ensures
            c@.len() == 0,
            c.wf(),
            *final(counters) == (Counters {
                chunk_alloc: wrapped_sum(old(counters).chunk_alloc, 1),
                ..*old(counters)
            }),
    {
        chunk_allocated(counters);
        Chunk { items: Vec::with_capacity(Self::cap()) }
    }

    /// Forgets the records of the chunk.
    pub fn clear(&mut self)
        ensures
            final(self)@.len() == 0,
            final(self).wf(),
    {
        self.items.clear();
    }

    /// The writer that appends to the chunk.
    pub fn writer(self) -> (w: ChunkWriter<T>)
        ensures
            w@ == self@,
            w.spec_chunk() == self,
    {
        ChunkWriter { chunk: self }
    }

    /// Appends `val` unless the chunk is full.
    fn prepare_push(&mut self, val: T) -> (res: Result<(), ()>)
        requires
            old(self).wf(),
        ensures
            final(self).wf(),
            old(self)@.len() < Self::spec_cap() ==> res is Ok
                && final(self)@ == old(self)@.push(val),
            old(self)@.len() >= Self::spec_cap() ==> res is Err && final(self)@ == old(self)@,
    {
        if self.items.len() < Self::cap() {
            self.items.push(val);
            Ok(())
        } else {
            Err(())
        }
    }

    /// Number of records that fit into a chunk.
    pub fn cap() -> (n: usize)
        ensures
            n == Self::spec_cap(),
    {
        let size: usize = core::mem::size_of::<T>();
        if size == 0 {
            0
        } else {
            CHUNK_SIZE / size
        }
    }

    /// Number of records in the chunk.
    pub fn len(&self) -> (n: usize)
        ensures
            n == self@.len(),
    {
        self.items.len()
    }

    /// The records of the chunk.
    pub fn as_slice(&self) -> (s: &[T])
        ensures
            s@ == self@,
    {
        self.items.as_slice()
    }

    /// The records of the chunk, taken out of it.
    pub fn into_vec(self) -> (v: Vec<T>)
        ensures
            v@ == self@,
    {
        self.items
    }

    /// The chunk that holds the records `v`.
    pub fn from_vec(v: Vec<T>) -> (c: Chunk<T>)
        ensures
            c@ == v@,
    {
        Chunk { items: v }
    }

    /// Gives the chunk back to the system. It is counted as deallocated.
    pub fn free(self, counters: &mut Counters)
        ensures
            *final(counters) == (Counters {
                chunk_dealloc: wrapped_sum(old(counters).chunk_dealloc, 1),
                ..*old(counters)
            }),
    {
        chunk_deallocated(counters);
    }
}

impl<T: Copy> View for ChunkWriter<T> {
    type V = Seq<T>;

    /// The records written so far.
    open spec fn view(&self) -> Seq<T> {
        self.spec_chunk()@
    }
}

impl<T: Copy> ChunkWriter<T> {
    /// The chunk that is being filled.
    pub closed spec fn spec_chunk(self) -> Chunk<T> {
        self.chunk
    }

    /// The chunk that is being filled is well formed.
    pub open spec fn wf(&self) -> bool {
        self.spec_chunk().wf()
    }

    /// Appends `val`, or hands it back where the chunk is full.
    pub fn push(&mut self, val: T) -> (res: Result<(), T>)
        requires
            old(self).wf(),
        ensures
            final(self).wf(),
            old(self)@.len() < Chunk::<T>::spec_cap() ==> res is Ok
                && final(self)@ == old(self)@.push(val),
            old(self)@.len() >= Chunk::<T>::spec_cap() ==> res == Err::<(), T>(val)
                && final(self)@ == old(self)@,
    {
        match self.chunk.prepare_push(val) {
            Ok(_) => Ok(()),
            Err(_) => Err(val),
        }
    }
}

impl<T: Copy> FromSpecImpl<ChunkWriter<T>> for Chunk<T> {
    open spec fn obeys_from_spec() -> bool {
        true
    }

    open spec fn from_spec(w: ChunkWriter<T>) -> Chunk<T> {
        w.spec_chunk()
    }
}

impl<T: Copy> From<ChunkWriter<T>> for Chunk<T> {
    /// The chunk that the writer filled.
    fn from(w: ChunkWriter<T>) -> (c: Chunk<T>) {
        w.chunk
    }
}

impl<T: Copy> ChunkVec<T> {
    /// Number of chunks in the pool.
    pub closed spec fn spec_len(&self) -> nat {
        self.chunks@.len()
    }

    /// Every chunk of the pool is empty.
    pub closed spec fn wf(&self) -> bool {
        forall|i: int| 0 <= i < self.chunks@.len() ==> (#[trigger] self.chunks@[i])@.len() == 0
    }

    /// The empty pool.
    pub fn new() -> (p: ChunkVec<T>)
        ensures
            p.wf(),
            p.spec_len() == 0,
    {
        ChunkVec { chunks: Vec::new() }
    }

    /// Number of chunks in the pool.
    pub fn len(&self) -> (n: usize)
        ensures
            n == self.spec_len(),
    {
        self.chunks.len()
    }

    /// An empty chunk: one of the pool where it has any, else a fresh one.
    pub fn get(&mut self, counters: &mut Counters) -> (c: Chunk<T>)
        requires
            old(self).wf(),
        ensures
            final(self).wf(),
            c@.len() == 0,
            c.wf(),
            old(self).spec_len() > 0 ==> final(self).spec_len() == old(self).spec_len() - 1
                && *final(counters) == *old(counters),
            old(self).spec_len() == 0 ==> final(self).spec_len() == 0 && *final(counters) == (
            Counters { chunk_alloc: wrapped_sum(old(counters).chunk_alloc, 1), ..*old(counters) }),
    {
        match self.chunks.pop() {
            Some(chunk) => {
                proof {
                    assert(chunk == old(self).chunks@[old(self).chunks@.len() - 1]);
                }
                chunk
            },
            None => Chunk::new(counters),
        }
    }

    /// A chunk of the pool, if it has any.
    pub fn take(&mut self) -> (res: Option<Chunk<T>>)
        requires
            old(self).wf(),
        ensures
            final(self).wf(),
            match res {
                Some(c) => c@.len() == 0 && c.wf() && final(self).spec_len() + 1 == old(self).spec_len(),
                None => old(self).spec_len() == 0 && final(self).spec_len() == 0,
            },
    {
        let res = self.chunks.pop();
        proof {
            if res is Some {
                assert(res->Some_0 == old(self).chunks@[old(self).chunks@.len() - 1]);
            }
        }
        res
    }

    /// Takes the chunks of `other` into this pool.
    pub fn absorb(&mut self, other: &mut ChunkVec<T>)
        requires
            old(self).wf(),
            old(other).wf(),
        ensures
            final(self).wf(),
            final(other).wf(),
            final(self).spec_len() == old(self).spec_len() + old(other).spec_len(),
            final(other).spec_len() == 0,
    {
        self.chunks.append(&mut other.chunks);
    }

    /// A chunk that holds `val` and nothing else.
    pub fn get_with(&mut self, val: T, counters: &mut Counters) -> (c: Chunk<T>)
        requires
            old(self).wf(),
        ensures
            final(self).wf(),
            c@ == seq![val],
            c.wf() <==> Chunk::<T>::spec_cap() > 0,
            old(self).spec_len() > 0 ==> final(self).spec_len() == old(self).spec_len() - 1
                && *final(counters) == *old(counters),
            old(self).spec_len() == 0 ==> final(self).spec_len() == 0 && *final(counters) == (
            Counters { chunk_alloc: wrapped_sum(old(counters).chunk_alloc, 1), ..*old(counters) }),
    {
        let mut chunk = self.get(counters);

        chunk.items.push(val);
        proof {
            assert(chunk@ =~= seq![val]);
        }

        chunk
    }

    /// Takes `chunk` back into the pool, cleared.
    pub fn offer(&mut self, chunk: Chunk<T>)
        requires
            old(self).wf(),
        ensures
            final(self).wf(),
            final(self).spec_len() == old(self).spec_len() + 1,
    {
        let mut chunk = chunk;
        chunk.clear();
        self.chunks.push(chunk);
    }

    /// Gives every chunk of the pool back to the system.
    pub fn release(&mut self, counters: &mut Counters)
        requires
            old(self).wf(),
        ensures
            final(self).wf(),
            final(self).spec_len() == 0,
            *final(counters) == (Counters {
                chunk_dealloc: wrapped_sum(
                    old(counters).chunk_dealloc,
                    old(self).spec_len() as usize,
                ),
                ..*old(counters)
            }),
    {
        let ghost c0 = *counters;
        let ghost n0 = self.spec_len();
        let total: usize = self.chunks.len();
        loop
            invariant
                self.wf(),
                self.spec_len() <= n0,
                n0 <= usize::MAX,
                *counters == (Counters {
                    chunk_dealloc: wrapped_sum(
                        c0.chunk_dealloc,
                        (n0 - self.spec_len()) as usize,
                    ),
                    ..c0
                }),
            ensures
                self.wf(),
                self.spec_len() == 0,
                *counters == (Counters {
                    chunk_dealloc: wrapped_sum(c0.chunk_dealloc, n0 as usize),
                    ..c0
                }),
            decreases self.spec_len(),
        {
            match self.chunks.pop() {
                Some(chunk) => {
                    chunk.free(counters);
                },
                None => {
                    break ;
                },
            }
        }
    }
}

} // verus!
