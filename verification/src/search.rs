//! What the search finds: the nodes that sequences of pairs lead to.
//!
//! A path is a sequence of numbers of pairs. The search keeps, iteration by
//! iteration, the nodes that the paths of one length lead to; the laws here
//! say that expanding those of length `d` gives those of length `d + 1`.

use vstd::prelude::*;
use crate::config::Rule;
use crate::residual::{
    bottoms, has_room, lemma_complete_is_solution, lemma_solution_is_complete, run, steady, tops,
    Words,
};
use crate::solve::{expand, extend, goals, is_goal, start, successors, NodeView};

verus! {

/// The node that the rules with the numbers `path` lead to from the start,
/// one after the other; `None` where one of them cannot be applied.
pub open spec fn follow(rules: Seq<Rule>, path: Seq<int>) -> Option<NodeView>
    decreases path.len(),
{
    if path.len() == 0 {
        Some(start())
    } else {
        match follow(rules, path.drop_last()) {
            Some(n) => if 0 <= path.last() < rules.len() {
                extend(n, rules[path.last()])
            } else {
                None
            },
            None => None,
        }
    }
}

/// Some path of `d` rules leads to `n`.
pub open spec fn reached(rules: Seq<Rule>, d: nat, n: NodeView) -> bool {
    exists|path: Seq<int>| path.len() == d && #[trigger] follow(rules, path) == Some(n)
}

/// `nodes` holds the nodes that paths of `d` rules lead to, and no others.
pub open spec fn is_frontier(nodes: Seq<NodeView>, rules: Seq<Rule>, d: nat) -> bool {
    forall|n: NodeView| nodes.contains(n) <==> reached(rules, d, n)
}

/// No path of 1 to `d` rules leads to a goal.
pub open spec fn no_goal_within(rules: Seq<Rule>, d: nat) -> bool {
    forall|e: nat, n: NodeView| 1 <= e <= d && #[trigger] reached(rules, e, n) ==> !is_goal(n)
}

/// The goals that paths of `d` rules lead to are those of `found`.
pub open spec fn goals_at(found: Seq<NodeView>, rules: Seq<Rule>, d: nat) -> bool {
    forall|n: NodeView| found.contains(n) <==> reached(rules, d, n) && is_goal(n)
}

/// Every rule can be applied to every node that a path of `d` rules leads
/// to without running out of blocks.
pub open spec fn room_at(rules: Seq<Rule>, d: nat) -> bool {
    forall|n: NodeView, j: int|
        #[trigger] reached(rules, d, n) && 0 <= j < rules.len() ==> has_room(
            n.state,
            n.offset,
            (#[trigger] rules[j]).words,
        )
}

/// Every rule can be applied along every path of fewer than `d` rules.
pub open spec fn room_below(rules: Seq<Rule>, d: nat) -> bool {
    forall|e: nat| e < d ==> #[trigger] room_at(rules, e)
}

/// Two sequences hold the same nodes.
pub open spec fn same_members(a: Seq<NodeView>, b: Seq<NodeView>) -> bool {
    forall|n: NodeView| a.contains(n) <==> b.contains(n)
}

/// A node that a rule leads to from `n` is among the successors of `n`.
pub proof fn lemma_successors_has(n: NodeView, rules: Seq<Rule>, j: int)
    requires
        0 <= j < rules.len(),
        extend(n, rules[j]) is Some,
    ensures
        successors(n, rules).contains(extend(n, rules[j]).unwrap()),
    decreases rules.len(),
{
    let y = extend(n, rules[j]).unwrap();
    let before = successors(n, rules.drop_last());
    let all = successors(n, rules);
    if j == rules.len() - 1 {
        assert(all[before.len() as int] == y);
    } else {
        lemma_successors_has(n, rules.drop_last(), j);
        let k = choose|k: int| 0 <= k < before.len() && before[k] == y;
        assert(all[k] == y);
    }
}

/// Every successor of `n` is what some rule leads to from `n`.
pub proof fn lemma_successors_from(n: NodeView, rules: Seq<Rule>, k: int) -> (j: int)
    requires
        0 <= k < successors(n, rules).len(),
    ensures
        0 <= j < rules.len(),
        extend(n, rules[j]) == Some(successors(n, rules)[k]),
    decreases rules.len(),
{
    let before = successors(n, rules.drop_last());
    if k < before.len() {
        let j = lemma_successors_from(n, rules.drop_last(), k);
        assert(rules.drop_last()[j] == rules[j]);
        j
    } else {
        rules.len() - 1
    }
}

/// A node that a rule leads to from one of `nodes` is in their expansion.
pub proof fn lemma_expand_has(nodes: Seq<NodeView>, rules: Seq<Rule>, i: int, j: int)
    requires
        0 <= i < nodes.len(),
        0 <= j < rules.len(),
        extend(nodes[i], rules[j]) is Some,
    ensures
        expand(nodes, rules).contains(extend(nodes[i], rules[j]).unwrap()),
    decreases nodes.len(),
{
    let y = extend(nodes[i], rules[j]).unwrap();
    let before = expand(nodes.drop_last(), rules);
    let last = successors(nodes.last(), rules);
    let all = expand(nodes, rules);
    if i == nodes.len() - 1 {
        lemma_successors_has(nodes[i], rules, j);
        let k = choose|k: int| 0 <= k < last.len() && last[k] == y;
        assert(all[before.len() + k] == y);
    } else {
        lemma_expand_has(nodes.drop_last(), rules, i, j);
        let k = choose|k: int| 0 <= k < before.len() && before[k] == y;
        assert(all[k] == y);
    }
}

/// Every node of an expansion is what some rule leads to from one of the
/// nodes that were expanded.
pub proof fn lemma_expand_from(nodes: Seq<NodeView>, rules: Seq<Rule>, k: int) -> (at: (int, int))
    requires
        0 <= k < expand(nodes, rules).len(),
    ensures
        0 <= at.0 < nodes.len(),
        0 <= at.1 < rules.len(),
        extend(nodes[at.0], rules[at.1]) == Some(expand(nodes, rules)[k]),
    decreases nodes.len(),
{
    let before = expand(nodes.drop_last(), rules);
    if k < before.len() {
        let at = lemma_expand_from(nodes.drop_last(), rules, k);
        assert(nodes.drop_last()[at.0] == nodes[at.0]);
        at
    } else {
        let j = lemma_successors_from(nodes.last(), rules, k - before.len());
        (nodes.len() - 1, j)
    }
}

/// A goal among `nodes` is among their goals.
pub proof fn lemma_goals_has(nodes: Seq<NodeView>, i: int)
    requires
        0 <= i < nodes.len(),
        is_goal(nodes[i]),
    ensures
        goals(nodes).contains(nodes[i]),
    decreases nodes.len(),
{
    let rest = nodes.drop_last();
    if i < rest.len() {
        lemma_goals_has(rest, i);
        let k = choose|k: int| 0 <= k < goals(rest).len() && goals(rest)[k] == nodes[i];
        assert(goals(nodes)[k] == nodes[i]);
    } else {
        assert(goals(nodes)[goals(rest).len() as int] == nodes[i]);
    }
}

/// Every one of the goals of `nodes` is a goal, and one of `nodes`.
pub proof fn lemma_goals_from(nodes: Seq<NodeView>, k: int) -> (i: int)
    requires
        0 <= k < goals(nodes).len(),
    ensures
        0 <= i < nodes.len(),
        nodes[i] == goals(nodes)[k],
        is_goal(nodes[i]),
    decreases nodes.len(),
{
    let rest = nodes.drop_last();
    if k < goals(rest).len() {
        let i = lemma_goals_from(rest, k);
        assert(rest[i] == nodes[i]);
        i
    } else {
        nodes.len() - 1
    }
}

/// The goals among nodes are the nodes among them that are goals.
pub proof fn lemma_goals_members(nodes: Seq<NodeView>)
    ensures
        forall|n: NodeView|
            #![trigger goals(nodes).contains(n)]
            #![trigger nodes.contains(n)]
            goals(nodes).contains(n) <==> nodes.contains(n) && is_goal(n),
{
    assert forall|n: NodeView|
        #![trigger goals(nodes).contains(n)]
        #![trigger nodes.contains(n)]
        goals(nodes).contains(n) <==> nodes.contains(n) && is_goal(n) by {
        if goals(nodes).contains(n) {
            let k = choose|k: int| 0 <= k < goals(nodes).len() && goals(nodes)[k] == n;
            let i = lemma_goals_from(nodes, k);
            assert(nodes.contains(n));
        }
        if nodes.contains(n) && is_goal(n) {
            let i = choose|i: int| 0 <= i < nodes.len() && nodes[i] == n;
            lemma_goals_has(nodes, i);
        }
    }
}

/// The start is what the path of no rules leads to, and nothing else is.
pub proof fn lemma_frontier_start(rules: Seq<Rule>)
    ensures
        is_frontier(seq![start()], rules, 0),
{
    let nodes = seq![start()];
    assert forall|n: NodeView| nodes.contains(n) <==> reached(rules, 0, n) by {
        if nodes.contains(n) {
            assert(follow(rules, Seq::<int>::empty()) == Some(n));
        }
        if reached(rules, 0, n) {
            assert(nodes[0] == n);
        }
    }
}

/// Expanding the nodes that paths of `d` rules lead to gives the nodes that
/// paths of `d + 1` rules lead to.
pub proof fn lemma_frontier_step(nodes: Seq<NodeView>, rules: Seq<Rule>, d: nat)
    requires
        is_frontier(nodes, rules, d),
    ensures
        is_frontier(expand(nodes, rules), rules, d + 1),
{
    let next = expand(nodes, rules);
    assert forall|y: NodeView| next.contains(y) <==> reached(rules, d + 1, y) by {
        if next.contains(y) {
            let k = choose|k: int| 0 <= k < next.len() && next[k] == y;
            let at = lemma_expand_from(nodes, rules, k);
            assert(nodes.contains(nodes[at.0]));
            let path = choose|path: Seq<int>|
                path.len() == d && #[trigger] follow(rules, path) == Some(nodes[at.0]);
            let longer = path.push(at.1);
            assert(longer.drop_last() =~= path);
            assert(follow(rules, longer) == Some(y));
        }
        if reached(rules, d + 1, y) {
            let path = choose|path: Seq<int>|
                path.len() == d + 1 && #[trigger] follow(rules, path) == Some(y);
            let shorter = path.drop_last();
            let m = follow(rules, shorter).unwrap();
            assert(reached(rules, d, m));
            assert(nodes.contains(m));
            let i = choose|i: int| 0 <= i < nodes.len() && nodes[i] == m;
            lemma_expand_has(nodes, rules, i, path.last());
        }
    }
}

/// The words of the rules with the numbers `path`.
pub open spec fn words_along(rules: Seq<Rule>, path: Seq<int>) -> Seq<Words> {
    Seq::new(path.len(), |k: int| rules[path[k]].words)
}

/// The residual of the node that a path leads to is the residual that the
/// words of its rules lead to.
pub proof fn lemma_follow_runs(rules: Seq<Rule>, path: Seq<int>)
    requires
        follow(rules, path) is Some,
    ensures
        run(words_along(rules, path)) == Some(follow(rules, path).unwrap().state),
    decreases path.len(),
{
    if path.len() > 0 {
        lemma_follow_runs(rules, path.drop_last());
        assert(words_along(rules, path).drop_last() =~= words_along(rules, path.drop_last()));
    }
}

/// Words of which none is empty never hand the lead over early.
pub proof fn lemma_nonempty_steady(ws: Seq<Words>)
    requires
        forall|k: int| 0 <= k < ws.len() ==> (#[trigger] ws[k]).top.len() > 0 && ws[k].bottom.len() > 0,
    ensures
        steady(ws),
    decreases ws.len(),
{
    if ws.len() > 0 {
        assert forall|k: int| 0 <= k < ws.drop_last().len() implies (#[trigger] ws.drop_last()[k]).top.len()
            > 0 && ws.drop_last()[k].bottom.len() > 0 by {
            assert(ws.drop_last()[k] == ws[k]);
        }
        lemma_nonempty_steady(ws.drop_last());
    }
}

/// A path that leads to a goal is a solution: the top words of its rules,
/// one after the other, read the same as the bottom words.
pub proof fn lemma_goal_is_solution(rules: Seq<Rule>, path: Seq<int>)
    requires
        follow(rules, path) is Some,
        is_goal(follow(rules, path).unwrap()),
        steady(words_along(rules, path)),
    ensures
        tops(words_along(rules, path)) == bottoms(words_along(rules, path)),
{
    lemma_follow_runs(rules, path);
    lemma_complete_is_solution(words_along(rules, path));
}

/// Every number of `path` is the number of a rule.
pub open spec fn in_range(rules: Seq<Rule>, path: Seq<int>) -> bool {
    forall|k: int| 0 <= k < path.len() ==> 0 <= #[trigger] path[k] < rules.len()
}

/// Where the words of the rules of a path can be run, the path leads to a
/// node.
pub proof fn lemma_run_follows(rules: Seq<Rule>, path: Seq<int>)
    requires
        in_range(rules, path),
        run(words_along(rules, path)) is Some,
    ensures
        follow(rules, path) is Some,
    decreases path.len(),
{
    if path.len() > 0 {
        let shorter = path.drop_last();
        assert(words_along(rules, path).drop_last() =~= words_along(rules, shorter));
        assert forall|k: int| 0 <= k < shorter.len() implies 0 <= #[trigger] shorter[k]
            < rules.len() by {
            assert(shorter[k] == path[k]);
        }
        lemma_run_follows(rules, shorter);
        lemma_follow_runs(rules, shorter);
        assert(0 <= path[path.len() - 1] < rules.len());
    }
}

/// A solution is a path that leads to a goal: where the top words of the
/// rules of a path read the same as the bottom words, and no step hands
/// over early, the path leads to a node, and that node is a goal.
pub proof fn lemma_solution_is_goal(rules: Seq<Rule>, path: Seq<int>)
    requires
        in_range(rules, path),
        steady(words_along(rules, path)),
        tops(words_along(rules, path)) == bottoms(words_along(rules, path)),
    ensures
        follow(rules, path) is Some,
        is_goal(follow(rules, path).unwrap()),
{
    lemma_solution_is_complete(words_along(rules, path));
    lemma_run_follows(rules, path);
    lemma_follow_runs(rules, path);
}

} // verus!
