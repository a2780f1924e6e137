//! The search for the path that best explains a haplotype.
//!
//! Three means work together. Each variant alone is compared with the
//! haplotype (the one-to-one matches). A perfect one-to-one match cannot be
//! exceeded, so with one at hand the search is cut down to the path through
//! its node. What is left of the graph is searched path by path, in the order
//! of the handles, until the given number of paths has been scored.

use vstd::prelude::*;
use crate::cli::KDParams;
use crate::haplotype::Haplotype;
use crate::pathscore::{
    lemma_empty_score_wf, lemma_score_not_worse_transitive, lemma_score_of,
    lemma_score_of_thresholds, lemma_score_order_transitive, lemma_score_trichotomy,
    same_thresholds, score_of, PathScore, ScoreModel,
};
use crate::vargraph::{
    graph_contains_edge, graph_edges, graph_node_count, graph_nodes, is_variant_graph, VarNode,
};
use petgraph::graph::DiGraph;

verus! {

/// The pair `(a, b)` is among the edges to skip.
pub open spec fn skipped(skip: Seq<(usize, usize)>, a: int, b: int) -> bool {
    exists|k: int| 0 <= k < skip.len() && (#[trigger] skip[k]).0 == a && skip[k].1 == b
}

/// The edges to skip, as a set.
pub open spec fn skip_set(skip: Seq<(usize, usize)>) -> Set<(int, int)> {
    Set::new(|e: (int, int)| skipped(skip, e.0, e.1))
}

/// The search may pass from `a` to `b`: the edge exists and is not blocked.
pub open spec fn usable(edges: Seq<(int, int)>, blocked: Set<(int, int)>, a: int, b: int) -> bool {
    edges.contains((a, b)) && !blocked.contains((a, b))
}

/// The paths to the sink `n - 1` that begin with `prefix` and go on with a
/// node at or after `next`, in the order of their handles.
pub open spec fn extensions(
    edges: Seq<(int, int)>,
    blocked: Set<(int, int)>,
    n: int,
    prefix: Seq<usize>,
    next: int,
) -> Seq<Seq<usize>>
    decreases n - prefix.last(), n - next,
{
    let last = prefix.last() as int;
    if prefix.len() == 0 || next >= n || next <= last || next > usize::MAX {
        Seq::empty()
    } else {
        let through = if usable(edges, blocked, last, next) {
            if next == n - 1 {
                seq![prefix.push(next as usize)]
            } else {
                extensions(edges, blocked, n, prefix.push(next as usize), next + 1)
            }
        } else {
            Seq::empty()
        };
        through + extensions(edges, blocked, n, prefix, next + 1)
    }
}

/// The paths to the sink that begin with `prefix`: the prefix itself where it
/// ends at the sink.
pub open spec fn paths_from(
    edges: Seq<(int, int)>,
    blocked: Set<(int, int)>,
    n: int,
    prefix: Seq<usize>,
) -> Seq<Seq<usize>> {
    if prefix.last() == n - 1 {
        seq![prefix]
    } else {
        extensions(edges, blocked, n, prefix, prefix.last() + 1)
    }
}

/// All paths from the source to the sink, in the order in which the search
/// comes to them: of two paths, the one with the smaller handle at the first
/// place where they differ comes first.
pub open spec fn all_paths(edges: Seq<(int, int)>, blocked: Set<(int, int)>, n: int) -> Seq<
    Seq<usize>,
> {
    paths_from(edges, blocked, n, seq![0usize])
}

/// The number of steps that the search spends on the extensions of a prefix.
pub open spec fn work_of_extensions(
    edges: Seq<(int, int)>,
    blocked: Set<(int, int)>,
    n: int,
    prefix: Seq<usize>,
    next: int,
) -> nat
    decreases n - prefix.last(), n - next,
{
    let last = prefix.last() as int;
    if prefix.len() == 0 || next >= n || next <= last || next > usize::MAX {
        0
    } else {
        let through: nat = if usable(edges, blocked, last, next) {
            if next == n - 1 {
                1
            } else {
                1 + work_of_extensions(edges, blocked, n, prefix.push(next as usize), next + 1)
            }
        } else {
            0
        };
        through + work_of_extensions(edges, blocked, n, prefix, next + 1)
    }
}

/// The number of steps that the search spends on a prefix.
pub open spec fn work_from(
    edges: Seq<(int, int)>,
    blocked: Set<(int, int)>,
    n: int,
    prefix: Seq<usize>,
) -> nat {
    if prefix.last() == n - 1 {
        1
    } else {
        1 + work_of_extensions(edges, blocked, n, prefix, prefix.last() + 1)
    }
}

/// The paths that the prefixes on the stack stand for, the top of the stack
/// first.
pub open spec fn pending(
    edges: Seq<(int, int)>,
    blocked: Set<(int, int)>,
    n: int,
    stack: Seq<Seq<usize>>,
) -> Seq<Seq<usize>>
    decreases stack.len(),
{
    if stack.len() == 0 {
        Seq::empty()
    } else {
        paths_from(edges, blocked, n, stack.last()) + pending(edges, blocked, n, stack.drop_last())
    }
}

/// The number of steps that the search spends on the stack.
pub open spec fn pending_work(
    edges: Seq<(int, int)>,
    blocked: Set<(int, int)>,
    n: int,
    stack: Seq<Seq<usize>>,
) -> nat
    decreases stack.len(),
{
    if stack.len() == 0 {
        0
    } else {
        work_from(edges, blocked, n, stack.last()) + pending_work(
            edges,
            blocked,
            n,
            stack.drop_last(),
        )
    }
}

/// The prefixes on a stack as values.
pub open spec fn prefixes(stack: Seq<Vec<usize>>) -> Seq<Seq<usize>> {
    Seq::new(stack.len(), |k: int| stack[k]@)
}

/// The scores as values.
pub open spec fn models(scores: Seq<PathScore>) -> Seq<ScoreModel> {
    Seq::new(scores.len(), |k: int| scores[k]@)
}

/// The score of each path.
pub open spec fn path_scores(
    nodes: Seq<VarNode>,
    paths: Seq<Seq<usize>>,
    hap: Haplotype,
    params: KDParams,
) -> Seq<ScoreModel> {
    Seq::new(paths.len(), |k: int| score_of(nodes, paths[k], hap, params))
}

/// The best of the scores: the first one that no later one exceeds, and the
/// empty score where none exceeds that.
pub open spec fn best_of_scores(scores: Seq<ScoreModel>) -> ScoreModel
    decreases scores.len(),
{
    if scores.len() == 0 {
        ScoreModel::empty()
    } else {
        let before = best_of_scores(scores.drop_last());
        if before.worse_than(scores.last()) {
            scores.last()
        } else {
            before
        }
    }
}

/// The smaller of two numbers.
pub open spec fn smaller(a: int, b: int) -> int {
    if a <= b {
        a
    } else {
        b
    }
}

/// Whether the pair `(a, b)` is among the edges to skip.
fn pair_in(skip: &Vec<(usize, usize)>, a: usize, b: usize) -> (r: bool)
    ensures
        r == skipped(skip@, a as int, b as int),
{
    let mut k: usize = 0;
    while k < skip.len()
        invariant
            k <= skip@.len(),
            forall|m: int| 0 <= m < k ==> !((#[trigger] skip@[m]).0 == a && skip@[m].1 == b),
        decreases skip@.len() - k,
    {
        let (x, y) = skip[k];
        if x == a && y == b {
            return true;
        }
        k += 1;
    }
    false
}

/// The prefix with one more handle.
fn extended(prefix: &Vec<usize>, next: usize) -> (r: Vec<usize>)
    ensures
        r@ == prefix@.push(next),
{
    let mut r: Vec<usize> = Vec::new();
    let mut k: usize = 0;
    while k < prefix.len()
        invariant
            k <= prefix@.len(),
            r@ == prefix@.take(k as int),
        decreases prefix@.len() - k,
    {
        r.push(prefix[k]);
        assert(prefix@.take(k + 1) == prefix@.take(k as int).push(prefix@[k as int]));
        k += 1;
    }
    assert(prefix@.take(prefix@.len() as int) == prefix@);
    r.push(next);
    r
}

/// The best score among the paths from source to sink, and the number of paths
/// that were scored.
///
/// The paths are taken in the order of `all_paths`, and the edges in
/// `skip_edges` are not passed. After `params.maxpaths` paths the search
/// ends with the best score that it has.
pub fn brute_force_search(
    graph: &DiGraph<VarNode, ()>,
    hap: &Haplotype,
    params: &KDParams,
    skip_edges: &Vec<(usize, usize)>,
) -> (r: (PathScore, usize))
    requires
        is_variant_graph(*graph),
    ensures
        r.1 <= params.maxpaths,
        r.1 == smaller(
            params.maxpaths as int,
            all_paths(
                graph_edges(*graph),
                skip_set(skip_edges@),
                graph_nodes(*graph).len() as int,
            ).len() as int,
        ),
        r.0@ == best_of_scores(
            path_scores(
                graph_nodes(*graph),
                all_paths(
                    graph_edges(*graph),
                    skip_set(skip_edges@),
                    graph_nodes(*graph).len() as int,
                ).take(r.1 as int),
                *hap,
                *params,
            ),
        ),
{
    let ghost nodes = graph_nodes(*graph);
    let ghost edges = graph_edges(*graph);
    let ghost blocked = skip_set(skip_edges@);
    let n = graph_node_count(graph);
    let ghost all = all_paths(edges, blocked, n as int);
    let snk = n - 1;
    let mut stack: Vec<Vec<usize>> = Vec::new();
    let mut first: Vec<usize> = Vec::new();
    first.push(0usize);
    stack.push(first);
    let mut best = PathScore::default();
    let mut examined: usize = 0;
    let ghost mut done: Seq<Seq<usize>> = Seq::empty();
    proof {
        assert(prefixes(stack@) =~= seq![seq![0usize]]);
        assert(prefixes(stack@).drop_last() =~= Seq::<Seq<usize>>::empty());
        assert(prefixes(stack@).last() =~= seq![0usize]);
        assert(pending(edges, blocked, n as int, Seq::<Seq<usize>>::empty()) =~= Seq::<
            Seq<usize>,
        >::empty());
        assert(pending(edges, blocked, n as int, prefixes(stack@)) =~= all);
        assert(path_scores(nodes, done, *hap, *params) =~= Seq::<ScoreModel>::empty());
    }
    while stack.len() > 0 && examined < params.maxpaths
        invariant
            nodes == graph_nodes(*graph),
            edges == graph_edges(*graph),
            blocked == skip_set(skip_edges@),
            is_variant_graph(*graph),
            n == nodes.len(),
            snk == n - 1,
            all == all_paths(edges, blocked, n as int),
            forall|k: int|
                0 <= k < stack@.len() ==> (#[trigger] stack@[k])@.len() > 0 && stack@[k]@.last() < n,
            done + pending(edges, blocked, n as int, prefixes(stack@)) == all,
            done.len() == examined,
            examined <= params.maxpaths,
            best@ == best_of_scores(path_scores(nodes, done, *hap, *params)),
        decreases pending_work(edges, blocked, n as int, prefixes(stack@)),
    {
        let ghost before = prefixes(stack@);
        let cur = stack.pop().unwrap();
        let ghost rest = prefixes(stack@);
        let last = cur[cur.len() - 1];
        proof {
            assert(rest =~= before.drop_last());
            assert(before.last() == cur@);
        }
        if last == snk {
            let ghost path = cur@;
            let ghost scores = path_scores(nodes, done, *hap, *params);
            let score = PathScore::new(graph, cur, hap, params);
            proof {
                assert(paths_from(edges, blocked, n as int, path) == seq![path]);
                assert(done.push(path) + pending(edges, blocked, n as int, rest) =~= done + pending(
                    edges,
                    blocked,
                    n as int,
                    before,
                ));
                assert(path_scores(nodes, done.push(path), *hap, *params) =~= scores.push(score@));
                assert(scores.push(score@).drop_last() =~= scores);
                done = done.push(path);
            }
            if score.better_than(&best) {
                best = score;
            }
            examined += 1;
        } else {
            let mut next: usize = n;
            proof {
                assert(extensions(edges, blocked, n as int, cur@, n as int) =~= Seq::<
                    Seq<usize>,
                >::empty());
            }
            while next > last + 1
                invariant
                    last + 1 <= next <= n,
                    last < snk,
                    snk == n - 1,
                    n == nodes.len(),
                    n <= crate::vargraph::MAX_NODES,
                    edges == graph_edges(*graph),
                    blocked == skip_set(skip_edges@),
                    cur@.len() > 0,
                    cur@.last() == last,
                    forall|k: int|
                        0 <= k < stack@.len() ==> (#[trigger] stack@[k])@.len() > 0
                            && stack@[k]@.last() < n,
                    pending(edges, blocked, n as int, prefixes(stack@)) == extensions(
                        edges,
                        blocked,
                        n as int,
                        cur@,
                        next as int,
                    ) + pending(edges, blocked, n as int, rest),
                    pending_work(edges, blocked, n as int, prefixes(stack@)) == work_of_extensions(
                        edges,
                        blocked,
                        n as int,
                        cur@,
                        next as int,
                    ) + pending_work(edges, blocked, n as int, rest),
                decreases next,
            {
                next -= 1;
                let ghost below = prefixes(stack@);
                if graph_contains_edge(graph, last, next) && !pair_in(skip_edges, last, next) {
                    let longer = extended(&cur, next);
                    stack.push(longer);
                    proof {
                        assert(usable(edges, blocked, last as int, next as int));
                        assert(prefixes(stack@) =~= below.push(cur@.push(next)));
                        assert(prefixes(stack@).drop_last() =~= below);
                        assert(pending(edges, blocked, n as int, prefixes(stack@)) =~= paths_from(
                            edges,
                            blocked,
                            n as int,
                            cur@.push(next),
                        ) + (extensions(edges, blocked, n as int, cur@, next + 1) + pending(
                            edges,
                            blocked,
                            n as int,
                            rest,
                        )));
                    }
                } else {
                    proof {
                        assert(!usable(edges, blocked, last as int, next as int));
                        assert(extensions(edges, blocked, n as int, cur@, next as int)
                            =~= extensions(edges, blocked, n as int, cur@, next + 1));
                    }
                }
            }
        }
    }
    proof {
        if stack@.len() == 0 {
            assert(prefixes(stack@) =~= Seq::<Seq<usize>>::empty());
            assert(done =~= all);
        }
        assert(all.take(examined as int) =~= done);
    }
    (best, examined)
}

/// Find the path through the graph that best explains the haplotype.
pub fn brute_force_find_path(
    graph: &DiGraph<VarNode, ()>,
    hap: &Haplotype,
    params: &KDParams,
    skip_edges: &Vec<(usize, usize)>,
) -> (r: PathScore)
    requires
        is_variant_graph(*graph),
    ensures
        r@ == best_of_scores(
            path_scores(
                graph_nodes(*graph),
                all_paths(
                    graph_edges(*graph),
                    skip_set(skip_edges@),
                    graph_nodes(*graph).len() as int,
                ).take(
                    smaller(
                        params.maxpaths as int,
                        all_paths(
                            graph_edges(*graph),
                            skip_set(skip_edges@),
                            graph_nodes(*graph).len() as int,
                        ).len() as int,
                    ),
                ),
                *hap,
                *params,
            ),
        ),
{
    brute_force_search(graph, hap, params, skip_edges).0
}

/// The score of the path that holds the node `node` alone.
pub open spec fn lone_score(nodes: Seq<VarNode>, hap: Haplotype, params: KDParams, node: int) -> ScoreModel {
    score_of(nodes, seq![node as usize], hap, params)
}

/// The one-to-one matches among the variants before the node at `upto`: for
/// each variant in turn, the score of the path that holds it alone, where that
/// is a match.
pub open spec fn one_to_one(nodes: Seq<VarNode>, hap: Haplotype, params: KDParams, upto: int) -> Seq<
    ScoreModel,
>
    decreases upto,
{
    if upto <= 1 {
        Seq::empty()
    } else {
        let before = one_to_one(nodes, hap, params, upto - 1);
        let score = lone_score(nodes, hap, params, upto - 1);
        if score.path.len() > 0 {
            before.push(score)
        } else {
            before
        }
    }
}

/// Search of every node for 1-to-1 matches: each variant of the graph alone is
/// compared with the haplotype.
pub fn get_one_to_one(graph: &DiGraph<VarNode, ()>, target: &Haplotype, params: &KDParams) -> (r:
    Vec<PathScore>)
    requires
        is_variant_graph(*graph),
    ensures
        models(r@) == one_to_one(
            graph_nodes(*graph),
            *target,
            *params,
            graph_nodes(*graph).len() - 1,
        ),
{
    let ghost nodes = graph_nodes(*graph);
    let n = graph_node_count(graph);
    let mut found: Vec<PathScore> = Vec::new();
    let mut i: usize = 1;
    proof {
        assert(models(found@) =~= one_to_one(nodes, *target, *params, 1));
    }
    while i < n - 1
        invariant
            1 <= i <= n - 1,
            n == nodes.len(),
            nodes == graph_nodes(*graph),
            is_variant_graph(*graph),
            models(found@) == one_to_one(nodes, *target, *params, i as int),
        decreases n - i,
    {
        let mut alone: Vec<usize> = Vec::new();
        alone.push(i);
        assert(alone@ =~= seq![i]);
        let candidate = PathScore::new(graph, alone, target, params);
        let ghost before = models(found@);
        if candidate.is_match() {
            found.push(candidate);
            assert(models(found@) =~= before.push(candidate@));
        }
        i += 1;
    }
    found
}

/// The node of the first perfect match at or after `from`.
pub open spec fn first_perfect(matches: Seq<ScoreModel>, from: int) -> Option<usize>
    decreases matches.len() - from,
{
    if from < 0 || from >= matches.len() {
        None
    } else if matches[from].is_perfect() && matches[from].path.len() > 0 {
        Some(matches[from].path[0])
    } else {
        first_perfect(matches, from + 1)
    }
}

/// The edges that pruning takes out of the search. With a perfect match at
/// hand no path can score higher, so every edge goes but the two that lead
/// from the source to the node of the first perfect match and from there to
/// the sink. Without a perfect match no edge goes.
pub open spec fn prune_set(
    edges: Seq<(int, int)>,
    matches: Seq<ScoreModel>,
    source: usize,
    sink: usize,
) -> Set<(int, int)> {
    match first_perfect(matches, 0) {
        Some(node) => Set::new(
            |e: (int, int)|
                edges.contains(e) && !((e.0 == source && e.1 == node) || (e.0 == node && e.1
                    == sink)),
        ),
        None => Set::empty(),
    }
}

proof fn lemma_skipped_push(skip: Seq<(usize, usize)>, p: (usize, usize))
    ensures
        forall|x: int, y: int| #[trigger]
            skipped(skip.push(p), x, y) <==> (skipped(skip, x, y) || (x == p.0 && y == p.1)),
{
    let longer = skip.push(p);
    assert forall|x: int, y: int| #[trigger]
        skipped(longer, x, y) <==> (skipped(skip, x, y) || (x == p.0 && y == p.1)) by {
        if skipped(skip, x, y) {
            let k = choose|k: int| 0 <= k < skip.len() && (#[trigger] skip[k]).0 == x && skip[k].1 == y;
            assert(longer[k].0 == x);
        }
        if x == p.0 && y == p.1 {
            assert(longer[skip.len() as int].0 == x);
        }
        if skipped(longer, x, y) {
            let k = choose|k: int|
                0 <= k < longer.len() && (#[trigger] longer[k]).0 == x && longer[k].1 == y;
            if k < skip.len() {
                assert(skip[k].0 == x);
            }
        }
    }
}

/// The edges that the search is to skip, given the one-to-one matches.
pub fn prune_graph(
    graph: &DiGraph<VarNode, ()>,
    kept_paths: &Vec<PathScore>,
    source: usize,
    sink: usize,
) -> (r: Vec<(usize, usize)>)
    requires
        is_variant_graph(*graph),
    ensures
        skip_set(r@) == prune_set(graph_edges(*graph), models(kept_paths@), source, sink),
{
    let ghost edges = graph_edges(*graph);
    let ghost matches = models(kept_paths@);
    let mut out: Vec<(usize, usize)> = Vec::new();
    let mut target: Option<usize> = None;
    let mut i: usize = 0;
    while i < kept_paths.len()
        invariant_except_break
            target is None,
            first_perfect(matches, 0) == first_perfect(matches, i as int),
        invariant
            i <= kept_paths@.len(),
            matches == models(kept_paths@),
        ensures
            target == first_perfect(matches, 0),
        decreases kept_paths@.len() - i,
    {
        let candidate = &kept_paths[i];
        if candidate.is_perfect() && candidate.is_match() {
            target = Some(candidate.path[0]);
            break;
        }
        i += 1;
    }
    let node = match target {
        Some(node) => node,
        None => {
            assert(skip_set(out@) =~= Set::<(int, int)>::empty());
            return out;
        },
    };
    let ghost cut = |x: int, y: int|
        edges.contains((x, y)) && !((x == source && y == node) || (x == node && y == sink));
    let n = graph_node_count(graph);
    let mut a: usize = 0;
    while a < n
        invariant
            a <= n,
            n == graph_nodes(*graph).len(),
            edges == graph_edges(*graph),
            is_variant_graph(*graph),
            cut == (|x: int, y: int|
                edges.contains((x, y)) && !((x == source && y == node) || (x == node && y == sink))),
            forall|x: int, y: int| #[trigger] skipped(out@, x, y) <==> (cut(x, y) && x < a),
        decreases n - a,
    {
        let mut b: usize = a + 1;
        while b < n
            invariant
                a < b <= n,
                n == graph_nodes(*graph).len(),
                edges == graph_edges(*graph),
                is_variant_graph(*graph),
                cut == (|x: int, y: int|
                    edges.contains((x, y)) && !((x == source && y == node) || (x == node && y
                        == sink))),
                forall|x: int, y: int| #[trigger]
                    skipped(out@, x, y) <==> (cut(x, y) && (x < a || (x == a && y < b))),
            decreases n - b,
        {
            if graph_contains_edge(graph, a, b) && !((a == source && b == node) || (a == node && b
                == sink)) {
                proof {
                    lemma_skipped_push(out@, (a, b));
                }
                out.push((a, b));
            }
            b += 1;
        }
        a += 1;
    }
    assert(skip_set(out@) =~= prune_set(edges, matches, source, sink));
    out
}

/// The best of some scores is well formed, is the empty score or one of them,
/// and is not worse than the empty score or than any of them.
pub proof fn lemma_best_of_scores(scores: Seq<ScoreModel>)
    requires
        forall|k: int| 0 <= k < scores.len() ==> (#[trigger] scores[k]).wf(),
    ensures
        best_of_scores(scores).wf(),
        best_of_scores(scores) == ScoreModel::empty() || scores.contains(best_of_scores(scores)),
        !best_of_scores(scores).worse_than(ScoreModel::empty()),
        forall|k: int| 0 <= k < scores.len() ==> !best_of_scores(scores).worse_than(#[trigger] scores[k]),
    decreases scores.len(),
{
    lemma_empty_score_wf();
    if scores.len() > 0 {
        let shorter = scores.drop_last();
        lemma_best_of_scores(shorter);
        let before = best_of_scores(shorter);
        let now = best_of_scores(scores);
        let last = scores.last();
        assert(last.wf());
        lemma_score_trichotomy(before, last);
        lemma_score_trichotomy(now, last);
        if before.worse_than(last) {
            if now.worse_than(ScoreModel::empty()) {
                lemma_score_order_transitive(before, now, ScoreModel::empty());
            }
        } else if before != ScoreModel::empty() {
            let at = choose|at: int| 0 <= at < shorter.len() && shorter[at] == before;
            assert(scores[at] == before);
        }
        assert forall|k: int| 0 <= k < scores.len() implies !now.worse_than(
            #[trigger] scores[k],
        ) by {
            if k < scores.len() - 1 {
                assert(shorter[k] == scores[k]);
                if before.worse_than(last) && now.worse_than(scores[k]) {
                    lemma_score_order_transitive(before, now, scores[k]);
                }
            }
        }
    }
}

/// The place of the best of the scores: the first place whose score no other
/// exceeds, and -1 where no score exceeds the empty one.
pub open spec fn best_index(scores: Seq<ScoreModel>) -> int
    decreases scores.len(),
{
    if scores.len() == 0 {
        -1
    } else {
        let before = best_index(scores.drop_last());
        let held = if before < 0 {
            ScoreModel::empty()
        } else {
            scores[before]
        };
        if held.worse_than(scores.last()) {
            scores.len() - 1
        } else {
            before
        }
    }
}

/// Of equal scores the first is the best: the best of the scores stands at
/// `best_index`, every score before that place is worse, and none is better.
pub proof fn lemma_best_is_first(scores: Seq<ScoreModel>)
    requires
        forall|k: int| 0 <= k < scores.len() ==> (#[trigger] scores[k]).wf(),
    ensures
        -1 <= best_index(scores) < scores.len(),
        best_index(scores) < 0 ==> best_of_scores(scores) == ScoreModel::empty(),
        best_index(scores) >= 0 ==> best_of_scores(scores) == scores[best_index(scores)]
            && ScoreModel::empty().worse_than(best_of_scores(scores)),
        forall|i: int|
            0 <= i < best_index(scores) ==> (#[trigger] scores[i]).worse_than(
                best_of_scores(scores),
            ),
        forall|i: int|
            0 <= i < scores.len() ==> !best_of_scores(scores).worse_than(#[trigger] scores[i]),
    decreases scores.len(),
{
    lemma_empty_score_wf();
    lemma_best_of_scores(scores);
    if scores.len() > 0 {
        let shorter = scores.drop_last();
        lemma_best_is_first(shorter);
        lemma_best_of_scores(shorter);
        let before = best_of_scores(shorter);
        let last = scores.last();
        let now = best_of_scores(scores);
        assert(last.wf());
        if before.worse_than(last) {
            assert forall|i: int| 0 <= i < best_index(scores) implies (#[trigger] scores[i]).worse_than(
                now,
            ) by {
                assert(shorter[i] == scores[i]);
                assert(!before.worse_than(shorter[i]));
                if !scores[i].worse_than(last) {
                    lemma_score_not_worse_transitive(before, scores[i], last);
                }
            }
            if !ScoreModel::empty().worse_than(last) {
                lemma_score_not_worse_transitive(before, ScoreModel::empty(), last);
            }
        } else {
            assert forall|i: int| 0 <= i < best_index(scores) implies (#[trigger] scores[i]).worse_than(
                now,
            ) by {
                assert(shorter[i] == scores[i]);
            }
        }
    }
}

/// The scores of paths against a well-formed haplotype are well formed.
pub proof fn lemma_path_scores_wf(
    nodes: Seq<VarNode>,
    paths: Seq<Seq<usize>>,
    hap: Haplotype,
    params: KDParams,
)
    requires
        hap.wf(),
    ensures
        forall|k: int|
            0 <= k < paths.len() ==> (#[trigger] path_scores(nodes, paths, hap, params)[k]).wf(),
{
    assert forall|k: int| 0 <= k < paths.len() implies (#[trigger] path_scores(
        nodes,
        paths,
        hap,
        params,
    )[k]).wf() by {
        lemma_score_of(nodes, paths[k], hap, params);
    }
}

/// Where no edge can be passed from the end of a prefix to a node at or after
/// `next`, the prefix has no extension there.
pub proof fn lemma_extensions_none(
    edges: Seq<(int, int)>,
    blocked: Set<(int, int)>,
    n: int,
    prefix: Seq<usize>,
    next: int,
)
    requires
        forall|j: int| next <= j < n ==> !usable(edges, blocked, prefix.last() as int, j),
    ensures
        extensions(edges, blocked, n, prefix, next) == Seq::<Seq<usize>>::empty(),
    decreases n - next,
{
    let last = prefix.last() as int;
    if !(prefix.len() == 0 || next >= n || next <= last || next > usize::MAX) {
        lemma_extensions_none(edges, blocked, n, prefix, next + 1);
        assert(extensions(edges, blocked, n, prefix, next) =~= Seq::<Seq<usize>>::empty());
    }
}

/// Where `only` is the one node at or after `next` to which an edge can be
/// passed from the end of a prefix, the extensions of the prefix are the paths
/// that go on with `only`.
pub proof fn lemma_extensions_single(
    edges: Seq<(int, int)>,
    blocked: Set<(int, int)>,
    n: int,
    prefix: Seq<usize>,
    next: int,
    only: int,
)
    requires
        prefix.len() > 0,
        prefix.last() < next <= only < n <= usize::MAX,
        usable(edges, blocked, prefix.last() as int, only),
        forall|j: int|
            next <= j < n && j != only ==> !usable(edges, blocked, prefix.last() as int, j),
    ensures
        extensions(edges, blocked, n, prefix, next) == paths_from(
            edges,
            blocked,
            n,
            prefix.push(only as usize),
        ),
    decreases only - next,
{
    if next == only {
        lemma_extensions_none(edges, blocked, n, prefix, next + 1);
        assert(prefix.push(only as usize).last() == only);
        assert(extensions(edges, blocked, n, prefix, next) =~= paths_from(
            edges,
            blocked,
            n,
            prefix.push(only as usize),
        ));
    } else {
        lemma_extensions_single(edges, blocked, n, prefix, next + 1, only);
        assert(extensions(edges, blocked, n, prefix, next) =~= extensions(
            edges,
            blocked,
            n,
            prefix,
            next + 1,
        ));
    }
}

/// A path that goes on from a prefix with the node `j` is among the extensions
/// of the prefix from any node up to `j`.
pub proof fn lemma_extensions_cover(
    edges: Seq<(int, int)>,
    blocked: Set<(int, int)>,
    n: int,
    prefix: Seq<usize>,
    next: int,
    j: int,
    path: Seq<usize>,
)
    requires
        prefix.len() > 0,
        prefix.last() < next <= j < n <= usize::MAX,
        usable(edges, blocked, prefix.last() as int, j),
        paths_from(edges, blocked, n, prefix.push(j as usize)).contains(path),
    ensures
        extensions(edges, blocked, n, prefix, next).contains(path),
    decreases j - next,
{
    let last = prefix.last() as int;
    let tail = extensions(edges, blocked, n, prefix, next + 1);
    let through = if usable(edges, blocked, last, next) {
        if next == n - 1 {
            seq![prefix.push(next as usize)]
        } else {
            extensions(edges, blocked, n, prefix.push(next as usize), next + 1)
        }
    } else {
        Seq::empty()
    };
    assert(extensions(edges, blocked, n, prefix, next) == through + tail);
    if next == j {
        assert(prefix.push(j as usize).last() == j);
        assert(through == paths_from(edges, blocked, n, prefix.push(j as usize)));
        let at = choose|at: int| 0 <= at < through.len() && through[at] == path;
        assert((through + tail)[at] == path);
    } else {
        lemma_extensions_cover(edges, blocked, n, prefix, next + 1, j, path);
        let at = choose|at: int| 0 <= at < tail.len() && tail[at] == path;
        assert((through + tail)[through.len() + at] == path);
    }
}

/// `path` leads from the source to the sink along edges that can be passed.
pub open spec fn is_source_sink_path(
    edges: Seq<(int, int)>,
    blocked: Set<(int, int)>,
    n: int,
    path: Seq<usize>,
) -> bool {
    &&& path.len() >= 2
    &&& path[0] == 0
    &&& path.last() == n - 1
    &&& forall|i: int| 0 <= i < path.len() ==> (#[trigger] path[i]) < n
    &&& forall|i: int|
        0 <= i < path.len() - 1 ==> (#[trigger] path[i]) < path[i + 1] && usable(
            edges,
            blocked,
            path[i] as int,
            path[i + 1] as int,
        )
}

/// A path from the source to the sink is among the paths that begin with any
/// of its prefixes.
pub proof fn lemma_path_enumerated(
    edges: Seq<(int, int)>,
    blocked: Set<(int, int)>,
    n: int,
    path: Seq<usize>,
    k: int,
)
    requires
        is_source_sink_path(edges, blocked, n, path),
        1 <= k <= path.len(),
        n <= usize::MAX,
    ensures
        paths_from(edges, blocked, n, path.take(k)).contains(path),
    decreases path.len() - k,
{
    if k == path.len() {
        assert(path.take(k) =~= path);
        assert(seq![path][0] == path);
    } else {
        lemma_path_enumerated(edges, blocked, n, path, k + 1);
        let prefix = path.take(k);
        assert(prefix.last() == path[k - 1]);
        assert(path[k - 1] < path[k]);
        assert(path[k] < n);
        assert(path.take(k + 1) =~= prefix.push(path[k]));
        lemma_extensions_cover(
            edges,
            blocked,
            n,
            prefix,
            path[k - 1] + 1,
            path[k] as int,
            path,
        );
    }
}

/// Every path from the source to the sink is among `all_paths`.
pub proof fn lemma_all_paths_complete(
    edges: Seq<(int, int)>,
    blocked: Set<(int, int)>,
    n: int,
    path: Seq<usize>,
)
    requires
        is_source_sink_path(edges, blocked, n, path),
        n <= usize::MAX,
    ensures
        all_paths(edges, blocked, n).contains(path),
{
    lemma_path_enumerated(edges, blocked, n, path, 1);
    assert(path.take(1) =~= seq![0usize]);
}

/// `prefix` leads from the source along edges that can be passed.
pub open spec fn is_path_prefix(
    edges: Seq<(int, int)>,
    blocked: Set<(int, int)>,
    n: int,
    prefix: Seq<usize>,
) -> bool {
    &&& prefix.len() >= 1
    &&& prefix[0] == 0
    &&& forall|i: int| 0 <= i < prefix.len() ==> (#[trigger] prefix[i]) < n
    &&& forall|i: int|
        0 <= i < prefix.len() - 1 ==> (#[trigger] prefix[i]) < prefix[i + 1] && usable(
            edges,
            blocked,
            prefix[i] as int,
            prefix[i + 1] as int,
        )
}

/// Every extension of a prefix that leads from the source along edges that can
/// be passed is a path from the source to the sink along such edges.
pub proof fn lemma_extensions_sound(
    edges: Seq<(int, int)>,
    blocked: Set<(int, int)>,
    n: int,
    prefix: Seq<usize>,
    next: int,
)
    requires
        is_path_prefix(edges, blocked, n, prefix),
    ensures
        forall|k: int|
            0 <= k < extensions(edges, blocked, n, prefix, next).len() ==> is_source_sink_path(
                edges,
                blocked,
                n,
                #[trigger] extensions(edges, blocked, n, prefix, next)[k],
            ),
    decreases n - prefix.last(), n - next,
{
    let last = prefix.last() as int;
    if !(prefix.len() == 0 || next >= n || next <= last || next > usize::MAX) {
        let tail = extensions(edges, blocked, n, prefix, next + 1);
        lemma_extensions_sound(edges, blocked, n, prefix, next + 1);
        let longer = prefix.push(next as usize);
        let through = if usable(edges, blocked, last, next) {
            if next == n - 1 {
                seq![longer]
            } else {
                extensions(edges, blocked, n, longer, next + 1)
            }
        } else {
            Seq::empty()
        };
        if usable(edges, blocked, last, next) {
            assert(is_path_prefix(edges, blocked, n, longer)) by {
                assert forall|i: int| 0 <= i < longer.len() - 1 implies (#[trigger] longer[i])
                    < longer[i + 1] && usable(
                    edges,
                    blocked,
                    longer[i] as int,
                    longer[i + 1] as int,
                ) by {
                    if i < prefix.len() - 1 {
                        assert(longer[i] == prefix[i] && longer[i + 1] == prefix[i + 1]);
                    }
                }
            }
            if next == n - 1 {
                assert(is_source_sink_path(edges, blocked, n, longer));
            } else {
                lemma_extensions_sound(edges, blocked, n, longer, next + 1);
            }
        }
        let all = extensions(edges, blocked, n, prefix, next);
        assert(all == through + tail);
        assert forall|k: int| 0 <= k < all.len() implies is_source_sink_path(
            edges,
            blocked,
            n,
            #[trigger] all[k],
        ) by {
            if k < through.len() {
                assert(all[k] == through[k]);
            } else {
                assert(all[k] == tail[k - through.len()]);
            }
        }
    }
}

/// The paths of `all_paths` are the paths from the source to the sink along
/// edges that can be passed: each of these, and nothing else.
pub proof fn lemma_all_paths_exact(edges: Seq<(int, int)>, blocked: Set<(int, int)>, n: int)
    requires
        2 <= n <= usize::MAX,
    ensures
        forall|path: Seq<usize>| #[trigger]
            all_paths(edges, blocked, n).contains(path) <==> is_source_sink_path(
                edges,
                blocked,
                n,
                path,
            ),
{
    let all = all_paths(edges, blocked, n);
    let start = seq![0usize];
    assert(is_path_prefix(edges, blocked, n, start));
    lemma_extensions_sound(edges, blocked, n, start, 1);
    assert(all == extensions(edges, blocked, n, start, 1));
    assert forall|path: Seq<usize>| #[trigger]
        all.contains(path) <==> is_source_sink_path(edges, blocked, n, path) by {
        if all.contains(path) {
            let k = choose|k: int| 0 <= k < all.len() && all[k] == path;
            assert(is_source_sink_path(edges, blocked, n, all[k]));
        }
        if is_source_sink_path(edges, blocked, n, path) {
            lemma_all_paths_complete(edges, blocked, n, path);
        }
    }
}

/// A path along edges that can be passed is a path of the graph, whatever is
/// blocked.
pub proof fn lemma_path_of_graph(
    edges: Seq<(int, int)>,
    blocked: Set<(int, int)>,
    n: int,
    path: Seq<usize>,
)
    requires
        is_source_sink_path(edges, blocked, n, path),
    ensures
        is_source_sink_path(edges, Set::empty(), n, path),
{
    assert forall|i: int| 0 <= i < path.len() - 1 implies (#[trigger] path[i]) < path[i + 1]
        && usable(edges, Set::empty(), path[i] as int, path[i + 1] as int) by {
        assert(usable(edges, blocked, path[i] as int, path[i + 1] as int));
    }
}

/// `m` is the score of a path that holds one variant before the node at `upto`,
/// and names that path.
pub open spec fn is_lone_match(
    nodes: Seq<VarNode>,
    hap: Haplotype,
    params: KDParams,
    upto: int,
    m: ScoreModel,
) -> bool {
    exists|i: int|
        1 <= i < upto && m == #[trigger] lone_score(nodes, hap, params, i) && m.path
            == seq![i as usize]
}

/// Each one-to-one match is the score of the path that holds one variant, and
/// names that path.
pub proof fn lemma_one_to_one(nodes: Seq<VarNode>, hap: Haplotype, params: KDParams, upto: int)
    requires
        hap.wf(),
    ensures
        forall|k: int|
            0 <= k < one_to_one(nodes, hap, params, upto).len() ==> is_lone_match(
                nodes,
                hap,
                params,
                upto,
                #[trigger] one_to_one(nodes, hap, params, upto)[k],
            ),
    decreases upto,
{
    if upto > 1 {
        lemma_one_to_one(nodes, hap, params, upto - 1);
        let before = one_to_one(nodes, hap, params, upto - 1);
        let now = one_to_one(nodes, hap, params, upto);
        let score = lone_score(nodes, hap, params, upto - 1);
        lemma_score_of(nodes, seq![(upto - 1) as usize], hap, params);
        assert forall|k: int| 0 <= k < now.len() implies is_lone_match(
            nodes,
            hap,
            params,
            upto,
            #[trigger] now[k],
        ) by {
            if k < before.len() {
                assert(is_lone_match(nodes, hap, params, upto - 1, before[k]));
                let i = choose|i: int|
                    1 <= i < upto - 1 && before[k] == #[trigger] lone_score(nodes, hap, params, i)
                        && before[k].path == seq![i as usize];
                assert(now[k] == before[k]);
                assert(1 <= i < upto && now[k] == lone_score(nodes, hap, params, i) && now[k].path
                    == seq![i as usize]);
            } else {
                let i = upto - 1;
                assert(now[k] == score);
                assert(1 <= i < upto && now[k] == lone_score(nodes, hap, params, i) && now[k].path
                    == seq![i as usize]);
            }
        }
    }
}

/// The node that `first_perfect` gives is the first node on the path of a
/// perfect match.
pub proof fn lemma_first_perfect(matches: Seq<ScoreModel>, from: int)
    requires
        0 <= from,
    ensures
        first_perfect(matches, from) matches Some(node) ==> exists|k: int|
            from <= k < matches.len() && (#[trigger] matches[k]).is_perfect() && matches[k].path.len()
                > 0 && matches[k].path[0] == node,
    decreases matches.len() - from,
{
    if from < matches.len() {
        if matches[from].is_perfect() && matches[from].path.len() > 0 {
        } else {
            lemma_first_perfect(matches, from + 1);
        }
    }
}

/// The scores of paths depend on the parameters through the thresholds alone.
pub proof fn lemma_path_scores_thresholds(
    nodes: Seq<VarNode>,
    paths: Seq<Seq<usize>>,
    hap: Haplotype,
    a: KDParams,
    b: KDParams,
)
    requires
        same_thresholds(a, b),
    ensures
        path_scores(nodes, paths, hap, a) == path_scores(nodes, paths, hap, b),
{
    assert forall|k: int| 0 <= k < paths.len() implies score_of(nodes, paths[k], hap, a)
        == score_of(nodes, paths[k], hap, b) by {
        lemma_score_of_thresholds(nodes, paths[k], hap, a, b);
    }
    assert(path_scores(nodes, paths, hap, a) =~= path_scores(nodes, paths, hap, b));
}

/// The one-to-one matches depend on the parameters through the thresholds
/// alone.
pub proof fn lemma_one_to_one_thresholds(
    nodes: Seq<VarNode>,
    hap: Haplotype,
    a: KDParams,
    b: KDParams,
    upto: int,
)
    requires
        same_thresholds(a, b),
    ensures
        one_to_one(nodes, hap, a, upto) == one_to_one(nodes, hap, b, upto),
    decreases upto,
{
    if upto > 1 {
        lemma_one_to_one_thresholds(nodes, hap, a, b, upto - 1);
        lemma_score_of_thresholds(nodes, seq![(upto - 1) as usize], hap, a, b);
    }
}

} // verus!
