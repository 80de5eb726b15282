//! Reading several sorted chunks as one sorted sequence.

use vstd::prelude::*;
use crate::analyze::{comes_before, node_before, sorted};
use crate::chunk_vec::Chunk;
use crate::solve::{nodes_wf, Node};

verus! {

/// Chunks that are read side by side, least node first.
pub struct MultiMergeIter {
    chunks: Vec<Chunk<Node>>,
    at: Vec<usize>,
}

/// What is left of a chunk that was read up to `at`.
pub open spec fn rest_of(chunk: Seq<Node>, at: usize) -> Seq<Node> {
    chunk.skip(at as int)
}

/// The head of sequence `k` is the least of the heads, and the first of
/// those that stand alike.
pub open spec fn is_first_least(rest: Seq<Seq<Node>>, k: int) -> bool {
    &&& 0 <= k < rest.len()
    &&& rest[k].len() > 0
    &&& forall|j: int|
        0 <= j < rest.len() && (#[trigger] rest[j]).len() > 0 ==> !comes_before(
            rest[j][0]@,
            rest[k][0]@,
        )
    &&& forall|j: int|
        0 <= j < k && (#[trigger] rest[j]).len() > 0 ==> comes_before(rest[k][0]@, rest[j][0]@)
}

/// The least head of sorted sequences comes before none of their nodes:
/// read head by head, they come out in order.
pub proof fn lemma_least_head_is_least(rest: Seq<Seq<Node>>, k: int, j: int, i: int)
    requires
        is_first_least(rest, k),
        forall|m: int| 0 <= m < rest.len() ==> sorted(#[trigger] rest[m]),
        0 <= j < rest.len(),
        0 <= i < rest[j].len(),
    ensures
        !comes_before(rest[j][i]@, rest[k][0]@),
{
    assert(sorted(rest[j]));
    assert(rest[j].len() > 0);
    if i > 0 {
        assert(!comes_before(rest[j][i]@, rest[j][0]@));
    }
}

impl MultiMergeIter {
    /// What is left of every chunk.
    pub closed spec fn spec_rest(&self) -> Seq<Seq<Node>> {
        Seq::new(self.chunks@.len(), |k: int| rest_of(self.chunks@[k]@, self.at@[k]))
    }

    /// Every chunk holds well-formed nodes and is read up to a place in it.
    pub closed spec fn wf(&self) -> bool {
        &&& self.at@.len() == self.chunks@.len()
        &&& forall|k: int|
            0 <= k < self.chunks@.len() ==> (#[trigger] self.at@[k]) <= self.chunks@[k]@.len()
                && nodes_wf(self.chunks@[k]@)
    }

    /// The chunks, with nothing read yet.
    pub fn new(chunks: Vec<Chunk<Node>>) -> (m: MultiMergeIter)
        requires
            forall|k: int| 0 <= k < chunks@.len() ==> nodes_wf((#[trigger] chunks@[k])@),
        ensures
            m.wf(),
            m.spec_rest().len() == chunks@.len(),
            forall|k: int| 0 <= k < chunks@.len() ==> (#[trigger] m.spec_rest()[k]) == chunks@[k]@,
    {
        let mut at: Vec<usize> = Vec::new();
        while at.len() < chunks.len()
            invariant
                at@.len() <= chunks@.len(),
                forall|k: int| 0 <= k < at@.len() ==> (#[trigger] at@[k]) == 0,
            decreases chunks.len() - at.len(),
        {
            at.push(0);
        }
        let m = MultiMergeIter { chunks: chunks, at: at };
        proof {
            assert forall|k: int| 0 <= k < chunks@.len() implies (#[trigger] m.spec_rest()[k])
                == chunks@[k]@ by {
                assert(chunks@[k]@.skip(0) =~= chunks@[k]@);
            }
        }
        m
    }

    /// The least of the nodes that are next in their chunks, the first of
    /// them where several stand alike; `None` where every chunk is read.
    pub fn next(&mut self) -> (res: Option<Node>)
        requires
            old(self).wf(),
        ensures
            final(self).wf(),
            final(self).spec_rest().len() == old(self).spec_rest().len(),
            match res {
                None => {
                    &&& final(self).spec_rest() == old(self).spec_rest()
                    &&& forall|k: int|
                        0 <= k < old(self).spec_rest().len() ==> (#[trigger] old(self).spec_rest()[k]).len() == 0
                },
                Some(n) => exists|k: int|
                    {
                        &&& #[trigger] is_first_least(old(self).spec_rest(), k)
                        &&& n == old(self).spec_rest()[k][0]
                        &&& final(self).spec_rest() == old(self).spec_rest().update(
                            k,
                            old(self).spec_rest()[k].skip(1),
                        )
                    },
            },
    {
        let ghost rest = self.spec_rest();
        let mut best: Option<usize> = None;
        let mut k: usize = 0;
        while k < self.chunks.len()
            invariant
                k <= self.chunks@.len(),
                self.wf(),
                rest == self.spec_rest(),
                *self == *old(self),
                match best {
                    None => forall|j: int| 0 <= j < k ==> (#[trigger] rest[j]).len() == 0,
                    Some(b) => {
                        &&& b < k
                        &&& rest[b as int].len() > 0
                        &&& forall|j: int|
                            0 <= j < k && (#[trigger] rest[j]).len() > 0 ==> !comes_before(
                                rest[j][0]@,
                                rest[b as int][0]@,
                            )
                        &&& forall|j: int|
                            0 <= j < b && (#[trigger] rest[j]).len() > 0 ==> comes_before(
                                rest[b as int][0]@,
                                rest[j][0]@,
                            )
                    },
                },
            decreases self.chunks.len() - k,
        {
            let nodes = self.chunks[k].as_slice();
            let pos = self.at[k];
            if pos < nodes.len() {
                proof {
                    assert(rest[k as int][0] == nodes@[pos as int]);
                }
                match best {
                    None => {
                        best = Some(k);
                    },
                    Some(b) => {
                        let other = self.chunks[b].as_slice();
                        proof {
                            assert(rest[b as int][0] == other@[self.at@[b as int] as int]);
                        }
                        if node_before(&nodes[pos], &other[self.at[b]]) {
                            best = Some(k);
                        }
                    },
                }
            }
            k += 1;
        }
        match best {
            None => None,
            Some(b) => {
                let pos = self.at[b];
                let node = self.chunks[b].as_slice()[pos];
                self.at.set(b, pos + 1);
                proof {
                    assert(is_first_least(rest, b as int));
                    assert(rest[b as int].skip(1) =~= rest_of(self.chunks@[b as int]@, (pos + 1) as usize));
                    assert(self.spec_rest() =~= rest.update(b as int, rest[b as int].skip(1)));
                }
                Some(node)
            },
        }
    }
}

} // verus!
