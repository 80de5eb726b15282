//! The breadth-first search over residuals.

use vstd::prelude::*;
use crate::chunk_vec::{Chunk, ChunkVec, ChunkWriter};
use crate::config::{pairs_wf, rules_of, Config, IPair, Rule};
use crate::pair::{CapacityError, VPair};
use crate::residual::{has_room, next_offset, step, Residual};
use crate::search::{
    goals_at, is_frontier, lemma_frontier_start, lemma_frontier_step, lemma_goals_members,
    no_goal_within, reached, room_at, room_below, same_members,
};
use crate::stats::{
    accounts_for, in_step, lemma_counted, lemma_counted_more, lemma_counted_zero,
    lemma_in_step_alloc, lemma_in_step_chain, lemma_in_step_same, pairs_applied,
    pairs_successfully_applied, precise_now, wrapped_sum, Counters, IterStats,
};

verus! {

/// A state of the search: a residual, the label of the pairs that led to
/// it, and their number. Label and depth are counted modulo 2^16.
#[derive(Copy, Clone, Debug)]
pub struct Node {
    pub pair: VPair,
    pub sum: u16,
    pub depth: u16,
}

/// A node as the search sees it.
pub struct NodeView {
    /// Who is ahead, and by which bits.
    pub state: Residual,
    /// Where in its first block the residual starts.
    pub offset: nat,
    /// The labels of the pairs that led here, added up modulo 2^16.
    pub sum: u16,
    /// The depths of the pairs that led here, added up modulo 2^16.
    pub depth: u16,
}

impl View for Node {
    type V = NodeView;

    open spec fn view(&self) -> NodeView {
        NodeView {
            state: self.pair@,
            offset: self.pair.spec_prefix(),
            sum: self.sum,
            depth: self.depth,
        }
    }
}

/// The node of the empty match, from which the search starts.
pub open spec fn start() -> NodeView {
    NodeView { state: crate::residual::initial(), offset: 0, sum: 0, depth: 0 }
}

/// The sum of `x` and `y` as a 16-bit counter holds it.
pub open spec fn wrapped16(x: u16, y: u16) -> u16 {
    if x + y > u16::MAX {
        (x + y - 0x1_0000) as u16
    } else {
        (x + y) as u16
    }
}

/// The node that the rule `r` leads to from `n`, if its pair can be
/// appended.
pub open spec fn extend(n: NodeView, r: Rule) -> Option<NodeView> {
    match step(n.state, r.words) {
        Some(s) => Some(
            NodeView {
                state: s,
                offset: next_offset(n.state, n.offset, r.words),
                sum: wrapped16(n.sum, r.sum_inc),
                depth: wrapped16(n.depth, r.depth_inc),
            },
        ),
        None => None,
    }
}

impl Node {
    /// The node of the empty match.
    pub closed spec fn new_spec() -> Node {
        Node { pair: VPair::new_spec(), sum: 0, depth: 0 }
    }

    /// What holds of the node of the empty match.
    pub proof fn lemma_new_spec()
        ensures
            Node::new_spec().pair.wf(),
            Node::new_spec()@ == (start()),
            Node::new_spec().pair.spec_prefix() == 0,
    {
        VPair::lemma_new_spec();
    }

    /// The node of the empty match.
    pub fn new() -> (n: Node)
        ensures
            n == Node::new_spec(),
            n.pair.wf(),
            n@ == (start()),
            n.pair.spec_prefix() == 0,
    {
        Node { pair: VPair::new(), sum: 0, depth: 0 }
    }

    /// The node that `pair` leads to, or nothing where its words do not
    /// fit; an error where the residual cannot be stored.
    pub fn try_apply(&self, pair: &IPair) -> (res: Result<Option<Node>, CapacityError>)
        requires
            self.pair.wf(),
            pair.pair.wf(),
        ensures
            res is Ok <==> self.pair.room_for(pair.pair),
            res matches Ok(o) ==> {
                &&& self.pair.applied(pair.pair, (match o {
                    Some(n) => Some(n.pair),
                    None => None,
                }))
                &&& (match o {
                    Some(n) => Some(n@),
                    None => None,
                }) == extend(self@, pair@)
            },
    {
        match self.pair.try_apply(&pair.pair) {
            Ok(Some(p)) => Ok(
                Some(
                    Node {
                        pair: p,
                        sum: self.sum.wrapping_add(pair.sum_inc),
                        depth: self.depth.wrapping_add(pair.depth_inc),
                    },
                ),
            ),
            Ok(None) => Ok(None),
            Err(e) => Err(e),
        }
    }

    /// The node that `pair` leads to, or nothing where its words do not fit.
    pub fn apply(&self, pair: &IPair) -> (res: Option<Node>)
        requires
            self.pair.wf(),
            pair.pair.wf(),
            self.pair.room_for(pair.pair),
        ensures
            self.pair.applied(pair.pair, (match res {
                Some(n) => Some(n.pair),
                None => None,
            })),
            (match res {
                Some(n) => Some(n@),
                None => None,
            }) == extend(self@, pair@),
    {
        match self.try_apply(pair) {
            Ok(o) => o,
            Err(_) => None,
        }
    }
}

/// Every node holds a well-formed residual.
pub open spec fn nodes_wf(s: Seq<Node>) -> bool {
    forall|i: int| 0 <= i < s.len() ==> (#[trigger] s[i]).pair.wf()
}

/// The nodes as the search sees them.
pub open spec fn views(s: Seq<Node>) -> Seq<NodeView> {
    s.map_values(|n: Node| n@)
}

/// The nodes of the chunks, first chunk first.
pub open spec fn flat(cs: Seq<Seq<Node>>) -> Seq<Node>
    decreases cs.len(),
{
    if cs.len() == 0 {
        Seq::empty()
    } else {
        flat(cs.drop_last()) + cs.last()
    }
}

/// The nodes of the chunks in the order in which they are taken up: last
/// chunk first, the nodes of a chunk in their order.
pub open spec fn pending(cs: Seq<Seq<Node>>) -> Seq<Node>
    decreases cs.len(),
{
    if cs.len() == 0 {
        Seq::empty()
    } else {
        cs.last() + pending(cs.drop_last())
    }
}

/// The pool of chunks and the two working sets of the search.
pub struct SolveState {
    chunks: ChunkVec<Node>,
    next_working_set: Vec<Chunk<Node>>,
    current_working_set: Vec<Chunk<Node>>,
}

/// The chunks of a working set as sequences of nodes.
pub closed spec fn contents(set: Seq<Chunk<Node>>) -> Seq<Seq<Node>> {
    Seq::new(set.len(), |i: int| set[i]@)
}

/// Every chunk of a working set is well formed, and so is every node in it.
pub closed spec fn set_wf(set: Seq<Chunk<Node>>) -> bool {
    forall|i: int| 0 <= i < set.len() ==> (#[trigger] set[i]).wf() && nodes_wf(set[i]@)
}

impl SolveState {
    /// Number of chunks in the pool.
    pub closed spec fn spec_pool(&self) -> nat {
        self.chunks.spec_len()
    }

    /// The chunks of the current working set.
    pub closed spec fn spec_current(&self) -> Seq<Seq<Node>> {
        contents(self.current_working_set@)
    }

    /// The chunks of the next working set.
    pub closed spec fn spec_next(&self) -> Seq<Seq<Node>> {
        contents(self.next_working_set@)
    }

    /// A chunk holds at least one node, the chunks of the pool are empty,
    /// and those of the working sets hold well-formed nodes, no more than fit.
    pub closed spec fn wf(&self) -> bool {
        &&& Chunk::<Node>::spec_cap() > 0
        &&& self.chunks.wf()
        &&& set_wf(self.current_working_set@)
        &&& set_wf(self.next_working_set@)
    }

    /// Number of chunks that the state holds.
    pub open spec fn spec_chunks(&self) -> nat {
        self.spec_pool() + self.spec_current().len() + self.spec_next().len()
    }

    /// The counters account for the chunks of the state and for `held`
    /// chunks that are in the hands of workers.
    pub open spec fn conserved(&self, c: Counters, held: int) -> bool {
        accounts_for(c, self.spec_chunks() + held)
    }

    /// What holds of a well-formed state.
    pub proof fn lemma_wf(&self)
        requires
            self.wf(),
        ensures
            Chunk::<Node>::spec_cap() > 0,
            nodes_wf(flat(self.spec_current())),
            nodes_wf(pending(self.spec_current())),
            nodes_wf(flat(self.spec_next())),
    {
        lemma_nodes_wf(self.current_working_set@);
        lemma_nodes_wf(self.next_working_set@);
    }

    /// The state of a search that is about to start: the node of the empty
    /// match in the current working set, nothing else anywhere.
    pub fn new(counters: &mut Counters) -> (s: SolveState)
        requires
            Chunk::<Node>::spec_cap() > 0,
        ensures
            s.wf(),
            s.spec_pool() == 0,
            s.spec_next().len() == 0,
            s.spec_current() == seq![seq![Node::new_spec()]],
            *final(counters) == (Counters {
                chunk_alloc: wrapped_sum(old(counters).chunk_alloc, 1),
                ..*old(counters)
            }),
            forall|live: int| #[trigger]
                accounts_for(*old(counters), live) ==> s.conserved(*final(counters), live),
    {
        let mut chunks = ChunkVec::new();
        let initial = chunks.get_with(Node::new(), counters);
        let mut current: Vec<Chunk<Node>> = Vec::new();
        current.push(initial);
        let s = SolveState {
            chunks: chunks,
            current_working_set: current,
            next_working_set: Vec::new(),
        };
        proof {
            assert(s.spec_current() =~= seq![seq![Node::new_spec()]]);
            assert forall|live: int| #[trigger]
                accounts_for(*old(counters), live) implies s.conserved(*counters, live) by {
                lemma_counted(*old(counters), *counters, live, 1, 0);
            }
        }
        s
    }

    /// A state without any chunk.
    pub fn empty() -> (s: SolveState)
        requires
            Chunk::<Node>::spec_cap() > 0,
        ensures
            s.wf(),
            s.spec_pool() == 0,
            s.spec_current().len() == 0,
            s.spec_next().len() == 0,
    {
        SolveState {
            chunks: ChunkVec::new(),
            current_working_set: Vec::new(),
            next_working_set: Vec::new(),
        }
    }

    /// Puts a chunk into the current working set.
    pub fn give(&mut self, chunk: Chunk<Node>)
        requires
            old(self).wf(),
            chunk.wf(),
            nodes_wf(chunk@),
        ensures
            final(self).wf(),
            final(self).spec_pool() == old(self).spec_pool(),
            final(self).spec_current() == old(self).spec_current().push(chunk@),
            final(self).spec_next() == old(self).spec_next(),
    {
        self.current_working_set.push(chunk);
        proof {
            assert(self.spec_current() =~= old(self).spec_current().push(chunk@));
        }
    }

    /// A chunk of the pool, if it has any.
    pub fn take_spare(&mut self) -> (res: Option<Chunk<Node>>)
        requires
            old(self).wf(),
        ensures
            final(self).wf(),
            final(self).spec_current() == old(self).spec_current(),
            final(self).spec_next() == old(self).spec_next(),
            match res {
                Some(c) => c@.len() == 0 && c.wf() && final(self).spec_pool() + 1 == old(self).spec_pool(),
                None => old(self).spec_pool() == 0 && final(self).spec_pool() == 0,
            },
    {
        self.chunks.take()
    }

    /// Takes over the chunks of `other`: those of its working sets behind
    /// those of the working sets of this state, those of its pool into the
    /// pool.
    pub fn absorb(&mut self, other: SolveState)
        requires
            old(self).wf(),
            other.wf(),
        ensures
            final(self).wf(),
            final(self).spec_pool() == old(self).spec_pool() + other.spec_pool(),
            final(self).spec_current() == old(self).spec_current() + other.spec_current(),
            final(self).spec_next() == old(self).spec_next() + other.spec_next(),
    {
        let mut rest = other;
        self.chunks.absorb(&mut rest.chunks);
        self.current_working_set.append(&mut rest.current_working_set);
        self.next_working_set.append(&mut rest.next_working_set);
        proof {
            assert(self.spec_current() =~= old(self).spec_current() + other.spec_current());
            assert(self.spec_next() =~= old(self).spec_next() + other.spec_next());
        }
    }

    /// Takes the current working set out of the state.
    pub fn take_working_set(&mut self) -> (set: Vec<Chunk<Node>>)
        requires
            old(self).wf(),
        ensures
            final(self).wf(),
            final(self).spec_pool() == old(self).spec_pool(),
            final(self).spec_next() == old(self).spec_next(),
            final(self).spec_current().len() == 0,
            set@.len() == old(self).spec_current().len(),
            forall|k: int|
                0 <= k < set@.len() ==> (#[trigger] set@[k])@ == old(self).spec_current()[k]
                    && set@[k].wf() && nodes_wf(set@[k]@),
    {
        let mut set: Vec<Chunk<Node>> = Vec::new();
        core::mem::swap(&mut set, &mut self.current_working_set);
        set
    }

    /// Takes a chunk off the current working set.
    pub fn pop(&mut self) -> (res: Option<Chunk<Node>>)
        requires
            old(self).wf(),
        ensures
            final(self).wf(),
            final(self).spec_pool() == old(self).spec_pool(),
            final(self).spec_next() == old(self).spec_next(),
            match res {
                Some(c) => {
                    &&& c.wf()
                    &&& nodes_wf(c@)
                    &&& old(self).spec_current() == final(self).spec_current().push(c@)
                },
                None => {
                    &&& old(self).spec_current().len() == 0
                    &&& final(self).spec_current().len() == 0
                },
            },
    {
        let res = self.current_working_set.pop();
        proof {
            if res is Some {
                let c = res->Some_0;
                let before = old(self).current_working_set@;
                assert(c == before[before.len() - 1]);
                assert(old(self).spec_current() =~= self.spec_current().push(c@));
            }
        }
        res
    }

    /// Puts a chunk into the next working set.
    pub fn push(&mut self, chunk: Chunk<Node>)
        requires
            old(self).wf(),
            chunk.wf(),
            nodes_wf(chunk@),
        ensures
            final(self).wf(),
            final(self).spec_pool() == old(self).spec_pool(),
            final(self).spec_current() == old(self).spec_current(),
            final(self).spec_next() == old(self).spec_next().push(chunk@),
    {
        self.next_working_set.push(chunk);
        proof {
            assert(self.spec_next() =~= old(self).spec_next().push(chunk@));
        }
    }

    /// An empty chunk from the pool.
    pub fn new_chunk(&mut self, counters: &mut Counters) -> (c: Chunk<Node>)
        requires
            old(self).wf(),
        ensures
            final(self).wf(),
            c@.len() == 0,
            c.wf(),
            final(self).spec_current() == old(self).spec_current(),
            final(self).spec_next() == old(self).spec_next(),
            old(self).spec_pool() > 0 ==> final(self).spec_pool() == old(self).spec_pool() - 1
                && *final(counters) == *old(counters),
            old(self).spec_pool() == 0 ==> final(self).spec_pool() == 0 && *final(counters) == (
            Counters { chunk_alloc: wrapped_sum(old(counters).chunk_alloc, 1), ..*old(counters) }),
            forall|held: int| #[trigger]
                old(self).conserved(*old(counters), held) ==> final(self).conserved(
                    *final(counters),
                    held + 1,
                ),
    {
        let c = self.chunks.get(counters);
        proof {
            assert forall|held: int| #[trigger]
                old(self).conserved(*old(counters), held) implies self.conserved(
                *counters,
                held + 1,
            ) by {
                if old(self).spec_pool() == 0 {
                    lemma_counted(*old(counters), *counters, old(self).spec_chunks() + held, 1, 0);
                }
            }
        }
        c
    }

    /// A chunk from the pool that holds `node` and nothing else.
    pub fn new_chunk_with(&mut self, node: Node, counters: &mut Counters) -> (c: Chunk<Node>)
        requires
            old(self).wf(),
            node.pair.wf(),
        ensures
            final(self).wf(),
            c@ == seq![node],
            c.wf(),
            final(self).spec_current() == old(self).spec_current(),
            final(self).spec_next() == old(self).spec_next(),
            old(self).spec_pool() > 0 ==> final(self).spec_pool() == old(self).spec_pool() - 1
                && *final(counters) == *old(counters),
            old(self).spec_pool() == 0 ==> final(self).spec_pool() == 0 && *final(counters) == (
            Counters { chunk_alloc: wrapped_sum(old(counters).chunk_alloc, 1), ..*old(counters) }),
            forall|held: int| #[trigger]
                old(self).conserved(*old(counters), held) ==> final(self).conserved(
                    *final(counters),
                    held + 1,
                ),
    {
        let c = self.chunks.get_with(node, counters);
        proof {
            assert forall|held: int| #[trigger]
                old(self).conserved(*old(counters), held) implies self.conserved(
                *counters,
                held + 1,
            ) by {
                if old(self).spec_pool() == 0 {
                    lemma_counted(*old(counters), *counters, old(self).spec_chunks() + held, 1, 0);
                }
            }
        }
        c
    }

    /// Gives a chunk back to the pool.
    pub fn offer(&mut self, chunk: Chunk<Node>)
        requires
            old(self).wf(),
        ensures
            final(self).wf(),
            final(self).spec_pool() == old(self).spec_pool() + 1,
            final(self).spec_current() == old(self).spec_current(),
            final(self).spec_next() == old(self).spec_next(),
    {
        self.chunks.offer(chunk)
    }

    /// Makes the next working set the current one. The current one has to
    /// be used up.
    pub fn swap(&mut self)
        requires
            old(self).wf(),
            old(self).spec_current().len() == 0,
        ensures
            final(self).wf(),
            final(self).spec_pool() == old(self).spec_pool(),
            final(self).spec_current() == old(self).spec_next(),
            final(self).spec_next().len() == 0,
    {
        core::mem::swap(&mut self.current_working_set, &mut self.next_working_set);
    }

    /// Number of chunks in the pool.
    pub fn pool_len(&self) -> (n: usize)
        ensures
            n == self.spec_pool(),
    {
        self.chunks.len()
    }

    /// Number of chunks in the next working set.
    pub fn next_len(&self) -> (n: usize)
        ensures
            n == self.spec_next().len(),
    {
        self.next_working_set.len()
    }

    /// Number of chunks in the current working set.
    pub fn current_len(&self) -> (n: usize)
        ensures
            n == self.spec_current().len(),
    {
        self.current_working_set.len()
    }

    /// Gives every chunk of the state back to the system.
    pub fn teardown(self, counters: &mut Counters)
        requires
            self.wf(),
        ensures
            *final(counters) == (Counters {
                chunk_dealloc: wrapped_sum(old(counters).chunk_dealloc, self.spec_chunks() as usize),
                ..*old(counters)
            }),
            self.conserved(*old(counters), 0) ==> final(counters).chunk_alloc
                == final(counters).chunk_dealloc,
    {
        let mut state = self;
        let ghost c0 = *counters;
        let mut spare = ChunkVec::new();
        let a: usize = state.current_working_set.len();
        let b: usize = state.next_working_set.len();
        let p: usize = state.chunks.len();
        loop
            invariant
                state.wf(),
                spare.wf(),
                state.spec_next() == self.spec_next(),
                state.spec_pool() == self.spec_pool(),
                spare.spec_len() + state.spec_current().len() == self.spec_current().len(),
            ensures
                state.wf(),
                spare.wf(),
                state.spec_current().len() == 0,
                state.spec_next() == self.spec_next(),
                state.spec_pool() == self.spec_pool(),
                spare.spec_len() == self.spec_current().len(),
            decreases state.spec_current().len(),
        {
            match state.pop() {
                Some(c) => {
                    spare.offer(c);
                },
                None => {
                    break ;
                },
            }
        }
        state.swap();
        loop
            invariant
                state.wf(),
                spare.wf(),
                state.spec_next().len() == 0,
                state.spec_pool() == self.spec_pool(),
                spare.spec_len() + state.spec_current().len() == self.spec_current().len()
                    + self.spec_next().len(),
            ensures
                state.wf(),
                spare.wf(),
                state.spec_pool() == self.spec_pool(),
                spare.spec_len() == self.spec_current().len() + self.spec_next().len(),
            decreases state.spec_current().len(),
        {
            match state.pop() {
                Some(c) => {
                    spare.offer(c);
                },
                None => {
                    break ;
                },
            }
        }
        spare.absorb(&mut state.chunks);
        let total: usize = spare.len();
        spare.release(counters);
        proof {
            assert(total == self.spec_chunks());
            if self.conserved(c0, 0) {
                lemma_counted(c0, *counters, self.spec_chunks() as int, 0, total);
                crate::stats::lemma_all_returned(*counters);
            }
        }
    }
}

/// The nodes of well-formed chunks are well formed, in whatever order the
/// chunks are read.
proof fn lemma_nodes_wf(set: Seq<Chunk<Node>>)
    requires
        set_wf(set),
    ensures
        nodes_wf(flat(contents(set))),
        nodes_wf(pending(contents(set))),
    decreases set.len(),
{
    if set.len() > 0 {
        let rest = set.drop_last();
        assert forall|i: int| 0 <= i < rest.len() implies (#[trigger] rest[i]).wf() && nodes_wf(
            rest[i]@,
        ) by {
            assert(rest[i] == set[i]);
        }
        lemma_nodes_wf(rest);
        assert(contents(set).drop_last() =~= contents(rest));
        assert(contents(set).last() == set[set.len() - 1]@);
        assert(nodes_wf(set[set.len() - 1]@));
    }
}

/// How far the search has come, and whether it is to go on.
#[derive(Copy, Clone, Debug)]
pub struct IterState {
    /// Iterations that were started.
    pub iter_cnt: usize,
    /// Iterations that may be started.
    pub iter_max: usize,
    /// A solution was found.
    pub success: bool,
    /// No further iteration is to be started.
    pub done: bool,
}

impl IterState {
    /// The state of a search of at most `iter_max` iterations.
    pub fn new(iter_max: usize) -> (s: IterState)
        ensures
            s == (IterState { iter_cnt: 0, iter_max: iter_max, success: false, done: false }),
    {
        IterState { iter_cnt: 0, iter_max: iter_max, success: false, done: false }
    }

    /// The state after a solution was reported.
    pub open spec fn spec_reported(self) -> IterState {
        IterState { success: true, done: true, ..self }
    }

    /// Notes that a solution was found; the search ends with this iteration.
    pub fn report_success(&mut self)
        ensures
            *final(self) == old(self).spec_reported(),
    {
        self.success = true;
        self.done = true;
    }

    /// Notes that the search was asked to stop; it ends with this iteration.
    pub fn interrupt(&mut self)
        ensures
            *final(self) == (IterState { done: true, ..*old(self) }),
    {
        self.done = true;
    }

    /// Whether a solution was found.
    pub fn is_success(&self) -> (r: bool)
        ensures
            r == self.success,
    {
        self.success
    }

    /// Starts the next iteration: `Some` where one may be started and the
    /// search is not done. An iteration that may be started is counted
    /// even where the search is done.
    pub fn next(&mut self) -> (r: Option<()>)
        ensures
            old(self).iter_cnt < old(self).iter_max ==> *final(self) == (IterState {
                iter_cnt: (old(self).iter_cnt + 1) as usize,
                ..*old(self)
            }),
            old(self).iter_cnt >= old(self).iter_max ==> *final(self) == *old(self),
            r is Some <==> old(self).iter_cnt < old(self).iter_max && !old(self).done,
    {
        if self.iter_cnt < self.iter_max {
            self.iter_cnt += 1;

            if !self.done {
                Some(())
            } else {
                None
            }
        } else {
            None
        }
    }
}

/// The nodes that the rules lead to from `n`, in the order of the rules.
pub open spec fn successors(n: NodeView, rules: Seq<Rule>) -> Seq<NodeView>
    decreases rules.len(),
{
    if rules.len() == 0 {
        Seq::empty()
    } else {
        let before = successors(n, rules.drop_last());
        match extend(n, rules.last()) {
            Some(x) => before.push(x),
            None => before,
        }
    }
}

/// The nodes that the rules lead to from `nodes`: the successors of the
/// first node, then those of the second, and so on.
pub open spec fn expand(nodes: Seq<NodeView>, rules: Seq<Rule>) -> Seq<NodeView>
    decreases nodes.len(),
{
    if nodes.len() == 0 {
        Seq::empty()
    } else {
        expand(nodes.drop_last(), rules) + successors(nodes.last(), rules)
    }
}

/// A node whose residual is empty: both sides read the same.
pub open spec fn is_goal(n: NodeView) -> bool {
    n.state.bits.len() == 0
}

/// The goals among `nodes`, in their order.
pub open spec fn goals(nodes: Seq<NodeView>) -> Seq<NodeView>
    decreases nodes.len(),
{
    if nodes.len() == 0 {
        Seq::empty()
    } else if is_goal(nodes.last()) {
        goals(nodes.drop_last()).push(nodes.last())
    } else {
        goals(nodes.drop_last())
    }
}

/// The goals of two sequences, one after the other.
pub proof fn lemma_goals_add(a: Seq<NodeView>, b: Seq<NodeView>)
    ensures
        goals(a + b) == goals(a) + goals(b),
    decreases b.len(),
{
    if b.len() == 0 {
        assert(a + b =~= a);
        assert(goals(a) + goals(b) =~= goals(a));
    } else {
        lemma_goals_add(a, b.drop_last());
        assert((a + b).drop_last() =~= a + b.drop_last());
        assert((a + b).last() == b.last());
        if is_goal(b.last()) {
            assert(goals(a + b) =~= goals(a) + goals(b));
        }
    }
}

/// Expanding two sequences of nodes, one after the other.
pub proof fn lemma_expand_add(a: Seq<NodeView>, b: Seq<NodeView>, rules: Seq<Rule>)
    ensures
        expand(a + b, rules) == expand(a, rules) + expand(b, rules),
    decreases b.len(),
{
    if b.len() == 0 {
        assert(a + b =~= a);
        assert(expand(a, rules) + expand(b, rules) =~= expand(a, rules));
    } else {
        lemma_expand_add(a, b.drop_last(), rules);
        assert((a + b).drop_last() =~= a + b.drop_last());
        assert((a + b).last() == b.last());
        assert(expand(a + b, rules) =~= expand(a, rules) + expand(b, rules));
    }
}

/// What a run of the search has to show at some moment.
pub struct Snapshot {
    /// The nodes that were put out: those of the next working set, then
    /// those that the writer holds.
    pub emitted: Seq<NodeView>,
    /// The goals that were found.
    pub found: Seq<NodeView>,
    /// The counters.
    pub counters: Counters,
    /// Whether the search is to go on.
    pub iter: IterState,
    /// Number of chunks that the state holds.
    pub chunks: int,
}

/// From `a` to `b` the search has applied `applied` pairs and put out the
/// nodes `fresh`: they were added to what was put out, the goals among them
/// to what was found; both were counted; a goal among them was reported;
/// and the chunks are accounted for as before.
pub open spec fn progress(a: Snapshot, b: Snapshot, fresh: Seq<NodeView>, applied: nat) -> bool {
    &&& b.emitted == a.emitted + fresh
    &&& b.found == a.found + goals(fresh)
    &&& b.counters.pair_apply == crate::stats::counted(a.counters.pair_apply, applied as int)
    &&& b.counters.pair_apply_success == crate::stats::counted(
        a.counters.pair_apply_success,
        fresh.len() as int,
    )
    &&& crate::stats::in_step(a.counters, a.chunks, b.counters, b.chunks)
    &&& b.iter == (if goals(fresh).len() > 0 {
        a.iter.spec_reported()
    } else {
        a.iter
    })
}

/// Nothing done is progress.
pub proof fn lemma_progress_none(a: Snapshot)
    ensures
        progress(a, a, Seq::empty(), 0),
{
    crate::stats::lemma_counted_zero(a.counters.pair_apply);
    crate::stats::lemma_counted_zero(a.counters.pair_apply_success);
    crate::stats::lemma_in_step_same(a.counters, a.chunks);
    assert(a.emitted + Seq::<NodeView>::empty() =~= a.emitted);
    assert(a.found + goals(Seq::<NodeView>::empty()) =~= a.found);
}

/// Progress adds up.
pub proof fn lemma_progress_chain(
    a: Snapshot,
    b: Snapshot,
    c: Snapshot,
    fresh1: Seq<NodeView>,
    applied1: nat,
    fresh2: Seq<NodeView>,
    applied2: nat,
)
    requires
        progress(a, b, fresh1, applied1),
        progress(b, c, fresh2, applied2),
    ensures
        progress(a, c, fresh1 + fresh2, applied1 + applied2),
{
    lemma_goals_add(fresh1, fresh2);
    crate::stats::lemma_counted_chain(a.counters.pair_apply, applied1 as int, applied2 as int);
    crate::stats::lemma_counted_chain(
        a.counters.pair_apply_success,
        fresh1.len() as int,
        fresh2.len() as int,
    );
    crate::stats::lemma_in_step_chain(
        a.counters,
        a.chunks,
        b.counters,
        b.chunks,
        c.counters,
        c.chunks,
    );
    assert(c.emitted =~= a.emitted + (fresh1 + fresh2));
    assert(c.found =~= a.found + (goals(fresh1) + goals(fresh2)));
}

/// The chunk that a worker fills with the nodes it puts out.
pub struct NodeWriter {
    inner: ChunkWriter<Node>,
}

impl View for NodeWriter {
    type V = Seq<Node>;

    /// The nodes that the writer holds.
    closed spec fn view(&self) -> Seq<Node> {
        self.inner@
    }
}

/// The chunk that a worker reads its nodes from.
pub struct NodeReader {
    inner: Chunk<Node>,
}

impl View for NodeReader {
    type V = Seq<Node>;

    /// The nodes of the chunk.
    closed spec fn view(&self) -> Seq<Node> {
        self.inner@
    }
}

/// What the search has to show, given its parts.
pub open spec fn snapshot(
    state: SolveState,
    writer: NodeWriter,
    iter: IterState,
    found: Seq<Node>,
    counters: Counters,
) -> Snapshot {
    Snapshot {
        emitted: views(flat(state.spec_next()) + writer@),
        found: views(found),
        counters: counters,
        iter: iter,
        chunks: state.spec_chunks() as int,
    }
}

impl NodeWriter {
    /// The writer holds well-formed nodes, no more than fit into a chunk.
    pub closed spec fn wf(&self) -> bool {
        self.inner.wf() && nodes_wf(self.inner@)
    }

    /// A writer with an empty chunk from the pool of `state`.
    pub fn new(state: &mut SolveState, counters: &mut Counters) -> (w: NodeWriter)
        requires
            old(state).wf(),
        ensures
            final(state).wf(),
            w.wf(),
            w@.len() == 0,
            final(state).spec_current() == old(state).spec_current(),
            final(state).spec_next() == old(state).spec_next(),
            final(counters).pair_apply == old(counters).pair_apply,
            final(counters).pair_apply_success == old(counters).pair_apply_success,
            in_step(
                *old(counters),
                old(state).spec_chunks() as int,
                *final(counters),
                (final(state).spec_chunks() + 1) as int,
            ),
    {
        let inner = state.new_chunk(counters).writer();
        proof {
            if old(state).spec_pool() == 0 {
                lemma_in_step_alloc(*old(counters), old(state).spec_chunks() as int, *counters);
            } else {
                lemma_in_step_same(*counters, old(state).spec_chunks() as int);
            }
        }

        NodeWriter { inner: inner }
    }

    /// Puts out `node`. Where the chunk is full, it goes to the next
    /// working set, and the node into a chunk from the pool.
    pub fn push(&mut self, state: &mut SolveState, node: Node, counters: &mut Counters)
        requires
            old(self).wf(),
            old(state).wf(),
            node.pair.wf(),
        ensures
            final(self).wf(),
            final(state).wf(),
            final(state).spec_current() == old(state).spec_current(),
            flat(final(state).spec_next()) + final(self)@ == (flat(old(state).spec_next()) + old(self)@).push(node),
            final(counters).pair_apply == old(counters).pair_apply,
            final(counters).pair_apply_success == old(counters).pair_apply_success,
            in_step(
                *old(counters),
                old(state).spec_chunks() as int,
                *final(counters),
                final(state).spec_chunks() as int,
            ),
    {
        proof {
            state.lemma_wf();
        }
        match self.inner.push(node) {
            Ok(()) => {
                proof {
                    lemma_in_step_same(*counters, state.spec_chunks() as int);
                    assert(flat(state.spec_next()) + self@ =~= (flat(old(state).spec_next()) + old(self)@).push(node));
                }
            },
            Err(n) => {
                let mut tmp = state.new_chunk_with(n, counters).writer();
                core::mem::swap(&mut tmp, &mut self.inner);
                let full = Chunk::from(tmp);
                proof {
                    if old(state).spec_pool() == 0 {
                        lemma_in_step_alloc(
                            *old(counters),
                            old(state).spec_chunks() as int,
                            *counters,
                        );
                    } else {
                        lemma_in_step_same(*counters, old(state).spec_chunks() as int);
                    }
                }
                state.push(full);
                proof {
                    let next0 = old(state).spec_next();
                    assert(state.spec_next().drop_last() =~= next0);
                    assert(flat(state.spec_next()) + self@ =~= (flat(next0) + old(self)@).push(node));
                }
            },
        }
    }

    /// Hands the chunk of the writer on to the next working set.
    pub fn finish(self, state: &mut SolveState)
        requires
            self.wf(),
            old(state).wf(),
        ensures
            final(state).wf(),
            final(state).spec_pool() == old(state).spec_pool(),
            final(state).spec_current() == old(state).spec_current(),
            final(state).spec_next().len() == old(state).spec_next().len() + 1,
            flat(final(state).spec_next()) == flat(old(state).spec_next()) + self@,
    {
        let chunk = Chunk::from(self.inner);
        state.push(chunk);
        proof {
            assert(state.spec_next().drop_last() =~= old(state).spec_next());
        }
    }
}

impl NodeReader {
    /// The reader of `chunk`.
    pub fn new(chunk: Chunk<Node>) -> (r: NodeReader)
        ensures
            r@ == chunk@,
    {
        NodeReader { inner: chunk }
    }

    /// The nodes of the chunk.
    pub fn nodes(&self) -> (s: &[Node])
        ensures
            s@ == self@,
    {
        self.inner.as_slice()
    }

    /// Gives the chunk back to the pool of `state`.
    pub fn release(self, state: &mut SolveState)
        requires
            old(state).wf(),
        ensures
            final(state).wf(),
            final(state).spec_pool() == old(state).spec_pool() + 1,
            final(state).spec_current() == old(state).spec_current(),
            final(state).spec_next() == old(state).spec_next(),
    {
        state.offer(self.inner);
    }
}

/// Every pair can be applied to `node` without running out of blocks.
pub open spec fn node_has_room(node: Node, pairs: Seq<IPair>) -> bool {
    forall|j: int| 0 <= j < pairs.len() ==> node.pair.room_for((#[trigger] pairs[j]).pair)
}

/// Every pair can be applied to every node without running out of blocks.
pub open spec fn nodes_have_room(nodes: Seq<Node>, pairs: Seq<IPair>) -> bool {
    forall|i: int| 0 <= i < nodes.len() ==> node_has_room(#[trigger] nodes[i], pairs)
}

/// Applies every pair to `node`, in the order of the pairs, and puts out
/// the nodes that this leads to. A goal among them is noted in `found` and
/// reported to `iter`. Stops with an error at the first pair whose
/// residual cannot be stored.
#[verifier::rlimit(100)]
pub fn expand_node(
    node: &Node,
    pairs: &Vec<IPair>,
    writer: &mut NodeWriter,
    state: &mut SolveState,
    iter: &mut IterState,
    found: &mut Vec<Node>,
    counters: &mut Counters,
) -> (res: Result<(), CapacityError>)
    requires
        node.pair.wf(),
        pairs_wf(pairs@),
        old(writer).wf(),
        old(state).wf(),
    ensures
        final(writer).wf(),
        final(state).wf(),
        final(state).spec_current() == old(state).spec_current(),
        res is Ok <==> node_has_room(*node, pairs@),
        res is Ok ==> progress(
            snapshot(*old(state), *old(writer), *old(iter), old(found)@, *old(counters)),
            snapshot(*final(state), *final(writer), *final(iter), final(found)@, *final(counters)),
            successors(node@, rules_of(pairs@)),
            pairs@.len(),
        ),
        in_step(
            *old(counters),
            old(state).spec_chunks() as int,
            *final(counters),
            final(state).spec_chunks() as int,
        ),
{
    let ghost s0 = snapshot(*state, *writer, *iter, found@, *counters);
    let ghost rules = rules_of(pairs@);
    proof {
        lemma_progress_none(s0);
        assert(rules.take(0) =~= Seq::<Rule>::empty());
    }
    let mut j: usize = 0;
    while j < pairs.len()
        invariant
            j <= pairs.len(),
            node.pair.wf(),
            pairs_wf(pairs@),
            rules == rules_of(pairs@),
            writer.wf(),
            state.wf(),
            state.spec_current() == old(state).spec_current(),
            s0 == snapshot(*old(state), *old(writer), *old(iter), old(found)@, *old(counters)),
            forall|k: int| 0 <= k < j ==> node.pair.room_for((#[trigger] pairs@[k]).pair),
            progress(
                s0,
                snapshot(*state, *writer, *iter, found@, *counters),
                successors(node@, rules.take(j as int)),
                j as nat,
            ),
        decreases pairs.len() - j,
    {
        let ghost before = snapshot(*state, *writer, *iter, found@, *counters);
        let ghost sofar = successors(node@, rules.take(j as int));
        proof {
            assert(rules.take(j + 1).drop_last() =~= rules.take(j as int));
            assert(rules.take(j + 1).last() == pairs@[j as int]@);
            lemma_counted_zero(counters.pair_apply);
            lemma_counted_more(counters.pair_apply, 0, 1);
            lemma_counted_zero(counters.pair_apply_success);
            lemma_counted_more(counters.pair_apply_success, 0, 1);
        }
        match node.try_apply(&pairs[j]) {
            Err(e) => {
                return Err(e);
            },
            Ok(None) => {
                pairs_applied(counters, 1);
                proof {
                    let after = snapshot(*state, *writer, *iter, found@, *counters);
                    lemma_in_step_same(before.counters, before.chunks);
                    assert(after.emitted + Seq::<NodeView>::empty() =~= after.emitted);
                    assert(after.found + goals(Seq::<NodeView>::empty()) =~= after.found);
                    assert(progress(before, after, Seq::empty(), 1));
                    lemma_progress_chain(s0, before, after, sofar, j as nat, Seq::empty(), 1);
                    assert(sofar + Seq::<NodeView>::empty() =~= sofar);
                }
            },
            Ok(Some(new_node)) => {
                pairs_applied(counters, 1);
                pairs_successfully_applied(counters, 1);

                if new_node.pair.is_complete() {
                    found.push(new_node);
                    iter.report_success();
                }
                writer.push(state, new_node, counters);
                proof {
                    let after = snapshot(*state, *writer, *iter, found@, *counters);
                    let fresh = seq![new_node@];
                    assert(fresh.drop_last() =~= Seq::<NodeView>::empty());
                    assert(goals(fresh.drop_last()) =~= Seq::<NodeView>::empty());
                    assert(fresh.last() == new_node@);
                    assert(goals(fresh) =~= (if is_goal(new_node@) {
                        fresh
                    } else {
                        Seq::empty()
                    }));
                    assert(after.emitted =~= before.emitted + fresh);
                    assert(after.found =~= before.found + goals(fresh));
                    assert(progress(before, after, fresh, 1));
                    lemma_progress_chain(s0, before, after, sofar, j as nat, fresh, 1);
                    assert(sofar + fresh =~= sofar.push(new_node@));
                }
            },
        }
        j += 1;
    }
    proof {
        assert(rules.take(j as int) =~= rules);
    }
    Ok(())
}

/// Applies every pair to every node of `nodes`, node by node, and puts out
/// the nodes that this leads to. Stops with an error at the first pair
/// whose residual cannot be stored.
#[verifier::rlimit(100)]
pub fn expand_chunk(
    nodes: &[Node],
    pairs: &Vec<IPair>,
    writer: &mut NodeWriter,
    state: &mut SolveState,
    iter: &mut IterState,
    found: &mut Vec<Node>,
    counters: &mut Counters,
) -> (res: Result<(), CapacityError>)
    requires
        nodes_wf(nodes@),
        pairs_wf(pairs@),
        old(writer).wf(),
        old(state).wf(),
    ensures
        final(writer).wf(),
        final(state).wf(),
        final(state).spec_current() == old(state).spec_current(),
        res is Ok <==> nodes_have_room(nodes@, pairs@),
        res is Ok ==> progress(
            snapshot(*old(state), *old(writer), *old(iter), old(found)@, *old(counters)),
            snapshot(*final(state), *final(writer), *final(iter), final(found)@, *final(counters)),
            expand(views(nodes@), rules_of(pairs@)),
            nodes@.len() * pairs@.len(),
        ),
        in_step(
            *old(counters),
            old(state).spec_chunks() as int,
            *final(counters),
            final(state).spec_chunks() as int,
        ),
{
    let ghost s0 = snapshot(*state, *writer, *iter, found@, *counters);
    let ghost rules = rules_of(pairs@);
    let ghost all = views(nodes@);
    proof {
        lemma_progress_none(s0);
        assert(all.take(0) =~= Seq::<NodeView>::empty());
        assert(0nat * pairs@.len() == 0) by (nonlinear_arith);
    }
    let mut i: usize = 0;
    while i < nodes.len()
        invariant
            i <= nodes.len(),
            nodes_wf(nodes@),
            pairs_wf(pairs@),
            rules == rules_of(pairs@),
            all == views(nodes@),
            writer.wf(),
            state.wf(),
            state.spec_current() == old(state).spec_current(),
            s0 == snapshot(*old(state), *old(writer), *old(iter), old(found)@, *old(counters)),
            forall|k: int| 0 <= k < i ==> node_has_room(#[trigger] nodes@[k], pairs@),
            progress(
                s0,
                snapshot(*state, *writer, *iter, found@, *counters),
                expand(all.take(i as int), rules),
                (i as nat) * pairs@.len(),
            ),
        decreases nodes.len() - i,
    {
        let ghost before = snapshot(*state, *writer, *iter, found@, *counters);
        let ghost c1 = *counters;
        let ghost n1 = state.spec_chunks() as int;
        let node = &nodes[i];
        match expand_node(node, pairs, writer, state, iter, found, counters) {
            Err(e) => {
                proof {
                    lemma_in_step_chain(
                        s0.counters,
                        s0.chunks,
                        c1,
                        n1,
                        *counters,
                        state.spec_chunks() as int,
                    );
                }
                return Err(e);
            },
            Ok(()) => {},
        }
        proof {
            let after = snapshot(*state, *writer, *iter, found@, *counters);
            lemma_progress_chain(
                s0,
                before,
                after,
                expand(all.take(i as int), rules),
                (i as nat) * pairs@.len(),
                successors(node@, rules),
                pairs@.len(),
            );
            assert(all.take(i + 1).drop_last() =~= all.take(i as int));
            assert(all.take(i + 1).last() == node@);
            assert(((i + 1) as nat) * pairs@.len() == (i as nat) * pairs@.len() + pairs@.len())
                by (nonlinear_arith);
        }
        i += 1;
    }
    proof {
        assert(all.take(i as int) =~= all);
    }
    Ok(())
}

impl SolveState {
    /// One pass of a worker: takes up the chunks of the current working
    /// set one by one, applies every pair to every node of them, and leaves
    /// the nodes that this leads to in the next working set. The chunks
    /// that were read go back to the pool.
    ///
    /// Stops with an error at the first pair whose residual cannot be
    /// stored; the chunks are accounted for then too.
    #[verifier::rlimit(100)]
    pub fn expand(
        &mut self,
        pairs: &Vec<IPair>,
        iter: &mut IterState,
        found: &mut Vec<Node>,
        counters: &mut Counters,
    ) -> (res: Result<(), CapacityError>)
        requires
            old(self).wf(),
            pairs_wf(pairs@),
        ensures
            final(self).wf(),
            res is Ok <==> nodes_have_room(pending(old(self).spec_current()), pairs@),
            res is Ok ==> {
                let fresh = expand(views(pending(old(self).spec_current())), rules_of(pairs@));
                &&& final(self).spec_current().len() == 0
                &&& views(flat(final(self).spec_next())) == views(flat(old(self).spec_next()))
                    + fresh
                &&& views(final(found)@) == views(old(found)@) + goals(fresh)
                &&& final(counters).pair_apply == crate::stats::counted(
                    old(counters).pair_apply,
                    (pending(old(self).spec_current()).len() * pairs@.len()) as int,
                )
                &&& final(counters).pair_apply_success == crate::stats::counted(
                    old(counters).pair_apply_success,
                    fresh.len() as int,
                )
                &&& *final(iter) == (if goals(fresh).len() > 0 {
                    old(iter).spec_reported()
                } else {
                    *old(iter)
                })
            },
            in_step(
                *old(counters),
                old(self).spec_chunks() as int,
                *final(counters),
                final(self).spec_chunks() as int,
            ),
            forall|held: int| #[trigger]
                old(self).conserved(*old(counters), held) ==> final(self).conserved(
                    *final(counters),
                    held,
                ),
    {
        let ghost rules = rules_of(pairs@);
        let ghost planned = pending(self.spec_current());
        let ghost c0 = *counters;
        let ghost n0 = self.spec_chunks() as int;
        let mut writer = NodeWriter::new(self, counters);
        let ghost s0 = snapshot(*self, writer, *iter, found@, *counters);
        let ghost done: Seq<Node> = Seq::empty();
        proof {
            lemma_progress_none(s0);
            assert(done + pending(self.spec_current()) =~= planned);
            assert(views(done) =~= Seq::<NodeView>::empty());
            assert(done.len() * pairs@.len() == 0) by (nonlinear_arith)
                requires
                    done.len() == 0,
            ;
            assert(s0.emitted =~= views(flat(old(self).spec_next())));
        }
        loop
            invariant
                self.wf(),
                writer.wf(),
                pairs_wf(pairs@),
                rules == rules_of(pairs@),
                planned == pending(old(self).spec_current()),
                done + pending(self.spec_current()) == planned,
                nodes_have_room(done, pairs@),
                s0.emitted == views(flat(old(self).spec_next())),
                s0.found == views(old(found)@),
                s0.counters.pair_apply == c0.pair_apply,
                s0.counters.pair_apply_success == c0.pair_apply_success,
                s0.iter == *old(iter),
                in_step(c0, n0, s0.counters, s0.chunks + 1),
                n0 == old(self).spec_chunks(),
                c0 == *old(counters),
                progress(
                    s0,
                    snapshot(*self, writer, *iter, found@, *counters),
                    expand(views(done), rules),
                    done.len() * pairs@.len(),
                ),
            decreases self.spec_current().len(),
        {
            let ghost before = snapshot(*self, writer, *iter, found@, *counters);
            let ghost cur_before = self.spec_current();
            match self.pop() {
                None => {
                    proof {
                        assert(pending(self.spec_current()) =~= Seq::<Node>::empty());
                        assert(done =~= planned);
                        lemma_in_step_chain(
                            c0,
                            n0,
                            s0.counters,
                            s0.chunks + 1,
                            *counters,
                            (self.spec_chunks() + 1) as int,
                        );
                    }
                    writer.finish(self);
                    proof {
                        lemma_conserved(*old(self), c0, *self, *counters);
                    }
                    return Ok(());
                },
                Some(chunk) => {
                    let reader = NodeReader::new(chunk);
                    let ghost mid = snapshot(*self, writer, *iter, found@, *counters);
                    let ghost c1 = *counters;
                    let ghost n1 = self.spec_chunks() as int;
                    let res = expand_chunk(
                        reader.nodes(),
                        pairs,
                        &mut writer,
                        self,
                        iter,
                        found,
                        counters,
                    );
                    let ghost n2 = self.spec_chunks() as int;
                    let ghost post = snapshot(*self, writer, *iter, found@, *counters);
                    proof {
                        assert(cur_before.drop_last() =~= self.spec_current());
                        assert(pending(cur_before) =~= reader@ + pending(self.spec_current()));
                        assert(before == Snapshot { chunks: n1 + 1, ..mid });
                    }
                    reader.release(self);
                    match res {
                        Err(e) => {
                            proof {
                                assert(planned =~= (done + reader@) + pending(self.spec_current()));
                                lemma_room_in_part(planned, done.len() as int, reader@, pairs@);
                                lemma_in_step_chain(c0, n0, s0.counters, s0.chunks + 1, c1, n1 + 2);
                                lemma_in_step_chain(c0, n0, c1, n1 + 2, *counters, n2 + 2);
                            }
                            writer.finish(self);
                            proof {
                                lemma_conserved(*old(self), c0, *self, *counters);
                            }
                            return Err(e);
                        },
                        Ok(()) => {
                            proof {
                                let after = snapshot(*self, writer, *iter, found@, *counters);
                                assert(after == Snapshot { chunks: n2 + 1, ..post });
                                assert(progress(
                                    before,
                                    after,
                                    expand(views(reader@), rules),
                                    reader@.len() * pairs@.len(),
                                ));
                                lemma_progress_chain(
                                    s0,
                                    before,
                                    after,
                                    expand(views(done), rules),
                                    done.len() * pairs@.len(),
                                    expand(views(reader@), rules),
                                    reader@.len() * pairs@.len(),
                                );
                                lemma_expand_add(views(done), views(reader@), rules);
                                assert(views(done + reader@) =~= views(done) + views(reader@));
                                assert((done.len() + reader@.len()) * pairs@.len() == done.len()
                                    * pairs@.len() + reader@.len() * pairs@.len())
                                    by (nonlinear_arith);
                                assert((done + reader@) + pending(self.spec_current()) =~= planned);
                                done = done + reader@;
                            }
                        },
                    }
                },
            }
        }
    }
}

/// Counters that are in step account for the chunks as they did before.
pub proof fn lemma_conserved(s0: SolveState, c0: Counters, s1: SolveState, c1: Counters)
    requires
        in_step(c0, s0.spec_chunks() as int, c1, s1.spec_chunks() as int),
    ensures
        forall|held: int| #[trigger] s0.conserved(c0, held) ==> s1.conserved(c1, held),
{
    assert forall|held: int| #[trigger] s0.conserved(c0, held) implies s1.conserved(c1, held) by {
        crate::stats::lemma_in_step_accounts(
            c0,
            s0.spec_chunks() as int,
            c1,
            s1.spec_chunks() as int,
            held,
        );
    }
}

/// Nodes that lie within nodes of which all have room have room, and the
/// other way round for the nodes that were taken up so far.
proof fn lemma_room_in_part(all: Seq<Node>, at: int, part: Seq<Node>, pairs: Seq<IPair>)
    requires
        0 <= at,
        at + part.len() <= all.len(),
        forall|i: int| 0 <= i < part.len() ==> all[at + i] == #[trigger] part[i],
        !nodes_have_room(part, pairs),
    ensures
        !nodes_have_room(all, pairs),
{
    let i = choose|i: int| 0 <= i < part.len() && !node_has_room(#[trigger] part[i], pairs);
    assert(all[at + i] == part[i]);
}

/// The nodes of two sequences, one after the other, are those of the one
/// and those of the other.
pub proof fn lemma_views_add(a: Seq<Node>, b: Seq<Node>)
    ensures
        views(a + b) == views(a) + views(b),
{
    assert(views(a + b) =~= views(a) + views(b));
}

/// In whatever order the chunks are read, the nodes are the same.
pub proof fn lemma_order_same(cs: Seq<Seq<Node>>)
    ensures
        same_members(views(flat(cs)), views(pending(cs))),
    decreases cs.len(),
{
    if cs.len() > 0 {
        let rest = cs.drop_last();
        let last = cs.last();
        lemma_order_same(rest);
        lemma_views_add(flat(rest), last);
        lemma_views_add(last, pending(rest));
        let a = views(flat(rest));
        let b = views(pending(rest));
        let l = views(last);
        assert forall|n: NodeView| (a + l).contains(n) <==> (l + b).contains(n) by {
            if (a + l).contains(n) {
                let k = choose|k: int| 0 <= k < (a + l).len() && (a + l)[k] == n;
                if k < a.len() {
                    assert(a[k] == n);
                    assert(a.contains(n));
                    let m = choose|m: int| 0 <= m < b.len() && b[m] == n;
                    assert((l + b)[l.len() + m] == n);
                } else {
                    assert((l + b)[k - a.len()] == n);
                }
            }
            if (l + b).contains(n) {
                let k = choose|k: int| 0 <= k < (l + b).len() && (l + b)[k] == n;
                if k < l.len() {
                    assert((a + l)[a.len() + k] == n);
                } else {
                    assert(b[k - l.len()] == n);
                    assert(b.contains(n));
                    let m = choose|m: int| 0 <= m < a.len() && a[m] == n;
                    assert((a + l)[m] == n);
                }
            }
        }
    }
}

/// The nodes that paths of `d` rules lead to have room for every pair
/// exactly if every rule can be applied to them.
pub proof fn lemma_room(nodes: Seq<Node>, pairs: Seq<IPair>, d: nat)
    requires
        is_frontier(views(nodes), rules_of(pairs), d),
    ensures
        nodes_have_room(nodes, pairs) <==> room_at(rules_of(pairs), d),
{
    let rules = rules_of(pairs);
    if nodes_have_room(nodes, pairs) {
        assert forall|n: NodeView, j: int|
            #[trigger] reached(rules, d, n) && 0 <= j < rules.len() implies has_room(
            n.state,
            n.offset,
            (#[trigger] rules[j]).words,
        ) by {
            assert(views(nodes).contains(n));
            let i = choose|i: int| 0 <= i < views(nodes).len() && views(nodes)[i] == n;
            assert(node_has_room(nodes[i], pairs));
            assert(nodes[i].pair.room_for(pairs[j].pair));
        }
    }
    if room_at(rules, d) {
        assert forall|i: int| 0 <= i < nodes.len() implies node_has_room(
            #[trigger] nodes[i],
            pairs,
        ) by {
            assert(views(nodes)[i] == nodes[i]@);
            assert(views(nodes).contains(nodes[i]@));
            assert(reached(rules, d, nodes[i]@));
            assert forall|j: int| 0 <= j < pairs.len() implies nodes[i].pair.room_for(
                (#[trigger] pairs[j]).pair,
            ) by {
                assert(rules[j].words == pairs[j].pair@);
            }
        }
    }
}

/// Why a search gave up.
#[derive(Copy, Clone, PartialEq, Eq, Structural, Debug)]
pub enum SolveError {
    /// A residual could not be stored in `BCNT` blocks.
    Capacity,
    /// A chunk is too small to hold a single node.
    ChunkTooSmall,
}

/// What a search has to report.
pub struct Report {
    /// A solution was found.
    pub success: bool,
    /// The goals that were found, in the order in which they were found.
    pub found: Vec<Node>,
    /// Iterations that were run.
    pub iterations: usize,
    /// Chunks of the working set that the search ended with.
    pub working_set: usize,
    /// The counters, after every chunk was given back.
    pub counters: Counters,
    /// The timing of the iterations.
    pub stats: IterStats,
}

/// Searches breadth first for a sequence of pairs whose top words read the
/// same as its bottom words, one iteration for each length, until a
/// solution is found or `config.max_iter` iterations were run.
///
/// The search ends with the first length for which there are solutions,
/// and reports every node that a solution of that length leads to. It
/// gives up where a pair cannot be applied for want of blocks, even in an
/// iteration that has found a solution.
#[verifier::rlimit(100)]
pub fn solve(config: &Config) -> (res: Result<Report, SolveError>)
    requires
        pairs_wf(config.pairs@),
    ensures
        res == Err::<Report, SolveError>(SolveError::ChunkTooSmall) <==> Chunk::<Node>::spec_cap()
            == 0,
        res matches Ok(r) ==> {
            let rules = rules_of(config.pairs@);
            &&& r.success == (r.found@.len() > 0)
            &&& r.iterations <= config.max_iter
            &&& room_below(rules, r.iterations as nat)
            &&& r.success ==> r.iterations >= 1 && goals_at(
                views(r.found@),
                rules,
                r.iterations as nat,
            ) && no_goal_within(rules, (r.iterations - 1) as nat)
            &&& !r.success ==> r.iterations == config.max_iter && no_goal_within(
                rules,
                r.iterations as nat,
            )
            &&& r.counters.chunk_alloc == r.counters.chunk_dealloc
            &&& r.stats.spec_timings().len() == r.iterations
        },
        res == Err::<Report, SolveError>(SolveError::Capacity) ==> exists|d: nat|
            d < config.max_iter && #[trigger] room_below(rules_of(config.pairs@), d) && !room_at(
                rules_of(config.pairs@),
                d,
            ) && no_goal_within(rules_of(config.pairs@), d),
{
    if Chunk::<Node>::cap() == 0 {
        return Err(SolveError::ChunkTooSmall);
    }
    let ghost rules = rules_of(config.pairs@);
    let mut counters = Counters::new();
    let mut iter = IterState::new(config.max_iter);
    let mut state = SolveState::new(&mut counters);
    let mut stats = IterStats::new();
    let mut found: Vec<Node> = Vec::new();
    let mut rounds: usize = 0;
    proof {
        Node::lemma_new_spec();
        lemma_frontier_start(rules);
        let first = seq![seq![Node::new_spec()]];
        assert(first.drop_last() =~= Seq::<Seq<Node>>::empty());
        assert(pending(first.drop_last()) =~= Seq::<Node>::empty());
        assert(first.last() == seq![Node::new_spec()]);
        assert(pending(first) =~= seq![Node::new_spec()]);
        assert(views(pending(first)) =~= seq![start()]);
    }

    loop
        invariant
            rules == rules_of(config.pairs@),
            rounds <= iter.iter_cnt,
            !iter.done ==> rounds == iter.iter_cnt,
            stats.spec_timings().len() == rounds,
            state.wf(),
            state.spec_next().len() == 0,
            pairs_wf(config.pairs@),
            state.conserved(counters, 0),
            iter.iter_max == config.max_iter,
            iter.iter_cnt <= iter.iter_max,
            iter.success == (found@.len() > 0),
            iter.done == iter.success,
            is_frontier(views(pending(state.spec_current())), rules, rounds as nat),
            room_below(rules, rounds as nat),
            !iter.done ==> no_goal_within(rules, rounds as nat),
            iter.done ==> rounds >= 1 && goals_at(views(found@), rules, rounds as nat)
                && no_goal_within(rules, (rounds - 1) as nat),
        ensures
            state.wf(),
            state.conserved(counters, 0),
            rounds <= config.max_iter,
            iter.success == (found@.len() > 0),
            stats.spec_timings().len() == rounds,
            room_below(rules, rounds as nat),
            !iter.success ==> rounds == config.max_iter && no_goal_within(rules, rounds as nat),
            iter.success ==> rounds >= 1 && goals_at(views(found@), rules, rounds as nat)
                && no_goal_within(rules, (rounds - 1) as nat),
        decreases iter.iter_max - iter.iter_cnt,
    {
        if iter.next().is_none() {
            break ;
        }
        let start = precise_now();
        stats.start(start);
        let ghost c0 = counters;
        let ghost n0 = state.spec_chunks() as int;
        let ghost f0 = found@;
        let ghost nodes = pending(state.spec_current());
        let ghost fresh = expand(views(nodes), rules);
        proof {
            lemma_room(nodes, config.pairs@, rounds as nat);
            assert(flat(state.spec_next()) =~= Seq::<Node>::empty());
            assert(views(flat(state.spec_next())) =~= Seq::<NodeView>::empty());
        }
        match state.expand(&config.pairs, &mut iter, &mut found, &mut counters) {
            Err(_) => {
                proof {
                    crate::stats::lemma_in_step_accounts(
                        c0,
                        n0,
                        counters,
                        state.spec_chunks() as int,
                        0,
                    );
                    assert(room_below(rules, rounds as nat));
                }
                state.teardown(&mut counters);
                return Err(SolveError::Capacity);
            },
            Ok(()) => {},
        }
        proof {
            crate::stats::lemma_in_step_accounts(c0, n0, counters, state.spec_chunks() as int, 0);
            assert(views(found@).len() == found@.len());
            assert(views(f0).len() == f0.len());
            assert(views(f0) =~= Seq::<NodeView>::empty());
            assert(views(found@) =~= goals(fresh));
            assert(views(flat(state.spec_next())) =~= fresh);
            lemma_frontier_step(views(nodes), rules, rounds as nat);
            lemma_order_same(state.spec_next());
            lemma_goals_members(fresh);
            assert forall|e: nat| e < rounds + 1 implies #[trigger] room_at(rules, e) by {
                if e < rounds {
                    assert(room_at(rules, e));
                }
            }
            if goals(fresh).len() == 0 {
                assert forall|e: nat, n: NodeView|
                    1 <= e <= rounds + 1 && #[trigger] reached(rules, e, n) implies !is_goal(
                    n,
                ) by {
                    if e == rounds + 1 {
                        if is_goal(n) {
                            assert(fresh.contains(n));
                            assert(goals(fresh).contains(n));
                        }
                    }
                }
            } else {
                assert forall|n: NodeView|
                    views(found@).contains(n) <==> reached(rules, (rounds + 1) as nat, n)
                        && is_goal(n) by {
                    assert(goals(fresh).contains(n) <==> fresh.contains(n) && is_goal(n));
                }
            }
        }
        state.swap();
        let stop = precise_now();
        stats.stop(start, stop);
        rounds += 1;
    }

    let working_set = state.current_len();
    let success = iter.is_success();
    let iterations = rounds;
    state.teardown(&mut counters);
    Ok(
        Report {
            success: success,
            found: found,
            iterations: iterations,
            working_set: working_set,
            counters: counters,
            stats: stats,
        },
    )
}

} // verus!
