//! Sorting the nodes of a working set, to look at what a search has left.

use vstd::prelude::*;
use core::cmp::Ordering;
use crate::chunk_vec::Chunk;
use crate::pair::Leading;
use crate::solve::{nodes_wf, Node, NodeView};

verus! {

/// The place of a side in the order of nodes: top before bottom.
pub open spec fn side_rank(l: Leading) -> int {
    match l {
        Leading::Top => 0,
        Leading::Bot => 1,
    }
}

/// `a` comes before `b`: its leading side does, or the sides are the same
/// and its residual is shorter.
pub open spec fn comes_before(a: NodeView, b: NodeView) -> bool {
    side_rank(a.state.leading) < side_rank(b.state.leading) || (a.state.leading
        == b.state.leading && a.state.bits.len() < b.state.bits.len())
}

/// No node comes before a node that stands before it.
pub open spec fn sorted(nodes: Seq<Node>) -> bool {
    forall|i: int, j: int| 0 <= i < j < nodes.len() ==> !comes_before(nodes[j]@, nodes[i]@)
}

/// `first`, or `second` where `first` does not decide.
pub fn and_then(first: Ordering, second: Ordering) -> (res: Ordering)
    ensures
        res == (match first {
            Ordering::Equal => second,
            _ => first,
        }),
{
    match first {
        Ordering::Equal => second,
        _ => first,
    }
}

/// How two sides stand in the order of nodes.
fn order_of_sides(a: Leading, b: Leading) -> (res: Ordering)
    ensures
        res == Ordering::Less <==> side_rank(a) < side_rank(b),
        res == Ordering::Greater <==> side_rank(a) > side_rank(b),
{
    match (a, b) {
        (Leading::Top, Leading::Bot) => Ordering::Less,
        (Leading::Bot, Leading::Top) => Ordering::Greater,
        _ => Ordering::Equal,
    }
}

/// How two lengths stand to each other.
fn order_of_lengths(a: u32, b: u32) -> (res: Ordering)
    ensures
        res == Ordering::Less <==> a < b,
        res == Ordering::Greater <==> a > b,
{
    if a < b {
        Ordering::Less
    } else if a > b {
        Ordering::Greater
    } else {
        Ordering::Equal
    }
}

/// How two nodes stand in the order of nodes: by their leading side, then
/// by the length of their residual.
pub fn cmp_nodes(a: &Node, b: &Node) -> (res: Ordering)
    requires
        a.pair.wf(),
        b.pair.wf(),
    ensures
        res == Ordering::Less <==> comes_before(a@, b@),
        res == Ordering::Greater <==> comes_before(b@, a@),
{
    let a = &a.pair;
    let b = &b.pair;

    and_then(order_of_sides(a.leading(), b.leading()), order_of_lengths(a.len(), b.len()))
}

/// Whether `a` comes before `b` in the order of nodes.
pub fn node_before(a: &Node, b: &Node) -> (res: bool)
    requires
        a.pair.wf(),
        b.pair.wf(),
    ensures
        res == comes_before(a@, b@),
{
    match cmp_nodes(a, b) {
        Ordering::Less => true,
        _ => false,
    }
}

/// Sorts `nodes` by `cmp_nodes`.
///
/// This is `slice::sort_unstable_by` of the standard library. Its
/// documentation promises a sorted slice of the same elements; the order of
/// nodes that stand alike is left open.
#[verifier::external_body]
fn sort_by_order(nodes: &mut Vec<Node>)
    requires
        nodes_wf(old(nodes)@),
    ensures
        sorted(final(nodes)@),
        final(nodes)@.to_multiset() == old(nodes)@.to_multiset(),
{
    nodes.sort_unstable_by(|a, b| cmp_nodes(a, b));
}

/// Sorts the nodes of every chunk by `cmp_nodes`.
pub fn analyze(chunks: Vec<Chunk<Node>>) -> (res: Vec<Chunk<Node>>)
    requires
        forall|k: int| 0 <= k < chunks@.len() ==> nodes_wf((#[trigger] chunks@[k])@),
    ensures
        res@.len() == chunks@.len(),
        forall|k: int|
            0 <= k < res@.len() ==> sorted((#[trigger] res@[k])@) && res@[k]@.to_multiset()
                == chunks@[k]@.to_multiset(),
{
    let mut rest = chunks;
    let mut turned: Vec<Chunk<Node>> = Vec::new();
    let ghost total = chunks@.len();
    while rest.len() > 0
        invariant
            rest@.len() + turned@.len() == total,
            total == chunks@.len(),
            forall|k: int| 0 <= k < rest@.len() ==> (#[trigger] rest@[k]) == chunks@[k],
            forall|k: int| 0 <= k < chunks@.len() ==> nodes_wf((#[trigger] chunks@[k])@),
            forall|k: int|
                0 <= k < turned@.len() ==> sorted((#[trigger] turned@[k])@)
                    && turned@[k]@.to_multiset() == chunks@[total - 1 - k]@.to_multiset(),
        decreases rest.len(),
    {
        match rest.pop() {
            Some(chunk) => {
                let mut nodes = chunk.into_vec();
                sort_by_order(&mut nodes);
                turned.push(Chunk::from_vec(nodes));
            },
            None => {},
        }
    }
    let mut res: Vec<Chunk<Node>> = Vec::new();
    while turned.len() > 0
        invariant
            turned@.len() + res@.len() == total,
            total == chunks@.len(),
            forall|k: int|
                0 <= k < turned@.len() ==> sorted((#[trigger] turned@[k])@)
                    && turned@[k]@.to_multiset() == chunks@[total - 1 - k]@.to_multiset(),
            forall|k: int|
                0 <= k < res@.len() ==> sorted((#[trigger] res@[k])@) && res@[k]@.to_multiset()
                    == chunks@[k]@.to_multiset(),
        decreases turned.len(),
    {
        match turned.pop() {
            Some(chunk) => {
                res.push(chunk);
            },
            None => {},
        }
    }
    res
}

} // verus!
