//! Assigning a haplotype to the paths of a window.

use vstd::prelude::*;
use crate::cli::KDParams;
use crate::haplotype::Haplotype;
use crate::metrics::{
    dot_upto, lemma_sequence_similarity_self, lemma_sequence_similarity_wf, lemma_size_similarity,
};
use crate::pathscore::{
    explains, lemma_best_match, lemma_best_match_sums, lemma_empty_score_wf, lemma_match_wf,
    lemma_perfect_is_best, lemma_perfect_score_explains, lemma_score_of, lemma_score_trichotomy,
    magnitude, match_of, node_count, node_size, path_count, path_fits, path_profile, path_size,
    score_of, PathScore, ScoreModel,
};
use crate::similarity::lemma_value_bounds;
use crate::traverse::{
    all_paths, best_of_scores, brute_force_find_path, extensions, first_perfect, get_one_to_one,
    is_lone_match, is_source_sink_path, lemma_all_paths_complete, lemma_all_paths_exact,
    lemma_best_of_scores, lemma_extensions_single, lemma_path_of_graph, lemma_first_perfect, lemma_one_to_one, lemma_one_to_one_thresholds,
    lemma_path_scores_thresholds, lemma_path_scores_wf, lone_score, models, one_to_one,
    path_scores, paths_from, prune_graph, prune_set, skip_set, smaller, usable,
};
use crate::vargraph::{graph_edges, graph_nodes, is_variant_graph, VarNode, Variants};
use petgraph::graph::DiGraph;

verus! {

/// The best of the scores, as `best_of_scores` says it.
fn take_best(scores: Vec<PathScore>) -> (r: PathScore)
    ensures
        r@ == best_of_scores(models(scores@)),
{
    let mut scores = scores;
    let ghost all = models(scores@);
    let mut best: usize = 0;
    let mut any = false;
    let mut i: usize = 0;
    proof {
        assert(all.take(0) =~= Seq::<ScoreModel>::empty());
    }
    while i < scores.len()
        invariant
            i <= scores@.len(),
            all == models(scores@),
            any ==> best < i,
            best_of_scores(all.take(i as int)) == if any {
                all[best as int]
            } else {
                ScoreModel::empty()
            },
        decreases scores@.len() - i,
    {
        proof {
            assert(all.take(i + 1).drop_last() =~= all.take(i as int));
            assert(all.take(i + 1).last() == all[i as int]);
        }
        let improves = if any {
            scores[i].better_than(&scores[best])
        } else {
            let nothing = PathScore::default();
            scores[i].better_than(&nothing)
        };
        if improves {
            best = i;
            any = true;
        }
        i += 1;
    }
    proof {
        assert(all.take(all.len() as int) =~= all);
    }
    if any {
        scores.swap_remove(best)
    } else {
        PathScore::default()
    }
}

impl Variants {
    /// The score that `apply_coverage` returns.
    ///
    /// A haplotype without events gets the empty score. Otherwise the
    /// one-to-one matches are found where pruning or the exact search asks for
    /// them. The exact search returns the best of them. The full search goes
    /// through the paths of the graph, without the edges that pruning takes
    /// out, and returns the best score among the first `maxpaths` of them. In
    /// each case the coverage of the haplotype is set on the score.
    pub open spec fn coverage_score(self, hap: Haplotype, params: KDParams) -> ScoreModel {
        let nodes = self.nodes();
        let edges = graph_edges(self.graph);
        let n = nodes.len() as int;
        let matches = if params.prune || params.try_exact {
            one_to_one(nodes, hap, params, n - 1)
        } else {
            Seq::empty()
        };
        let blocked = if params.prune {
            prune_set(edges, matches, 0, (n - 1) as usize)
        } else {
            Set::empty()
        };
        let all = all_paths(edges, blocked, n);
        if hap.n == 0 {
            ScoreModel::empty().with_coverage(hap.coverage)
        } else if params.try_exact {
            best_of_scores(matches).with_coverage(hap.coverage)
        } else {
            best_of_scores(
                path_scores(
                    nodes,
                    all.take(smaller(params.maxpaths as int, all.len() as int)),
                    hap,
                    params,
                ),
            ).with_coverage(hap.coverage)
        }
    }

    // Find the path through this graph that best fits
    // the haplotype push coverage onto the VarNodes
    pub fn apply_coverage(&self, hap: &Haplotype, params: &KDParams) -> (r: PathScore)
        requires
            self.wf(),
        ensures
            r@ == self.coverage_score(*hap, *params),
            hap.n == 0 ==> r@ == ScoreModel::empty().with_coverage(hap.coverage),
    {
        // if there are no variants in the hap, we don't want to apply the coverage.
        if hap.n == 0 {
            let mut ret = PathScore::default();
            ret.coverage = Some(hap.coverage);
            ret
        } else {
            let partial_matches = if params.prune || params.try_exact {
                get_one_to_one(&self.graph, hap, params)
            } else {
                let none: Vec<PathScore> = Vec::new();
                assert(models(none@) =~= Seq::<ScoreModel>::empty());
                none
            };

            let skip_edges = if params.prune {
                prune_graph(
                    &self.graph,
                    &partial_matches,
                    self.node_indices[0],
                    self.node_indices[self.node_indices.len() - 1],
                )
            } else {
                let none: Vec<(usize, usize)> = Vec::new();
                assert(skip_set(none@) =~= Set::<(int, int)>::empty());
                none
            };

            if params.try_exact {
                let mut ret = take_best(partial_matches);
                ret.coverage = Some(hap.coverage);
                ret
            } else {
                let mut ret = brute_force_find_path(&self.graph, hap, params, &skip_edges);
                ret.coverage = Some(hap.coverage);
                ret
            }
        }
    }
}

/// The anchors add nothing to the sums of a path: the path through one node
/// from source to sink has the sums of the node alone.
proof fn lemma_anchored_sums(g: DiGraph<VarNode, ()>, node: usize)
    requires
        is_variant_graph(g),
        node < graph_nodes(g).len(),
    ensures
        path_size(
            graph_nodes(g),
            seq![0usize, node, (graph_nodes(g).len() - 1) as usize],
        ) == path_size(graph_nodes(g), seq![node]),
        path_profile(
            graph_nodes(g),
            seq![0usize, node, (graph_nodes(g).len() - 1) as usize],
        ) == path_profile(graph_nodes(g), seq![node]),
        path_fits(graph_nodes(g), seq![0usize, node, (graph_nodes(g).len() - 1) as usize])
            == path_fits(graph_nodes(g), seq![node]),
{
    let nodes = graph_nodes(g);
    let sink = (nodes.len() - 1) as usize;
    let three = seq![0usize, node, sink];
    let two = seq![0usize, node];
    let one = seq![0usize];
    let alone = seq![node];
    let none = Seq::<usize>::empty();
    assert(three.drop_last() =~= two);
    assert(two.drop_last() =~= one);
    assert(one.drop_last() =~= none);
    assert(alone.drop_last() =~= none);
    assert(path_size(nodes, none) == 0);
    assert(path_size(nodes, one) == 0);
    assert(path_size(nodes, two) == node_size(nodes, node));
    assert(path_size(nodes, three) == node_size(nodes, node));
    assert(path_size(nodes, alone) == node_size(nodes, node));
    assert forall|w: int| path_count(nodes, three, w) == path_count(nodes, alone, w) by {
        assert(path_count(nodes, none, w) == 0);
        if 0 <= w < nodes[0].kfeat@.len() {
            assert(nodes[0].kfeat@[w] == 0);
        }
        if 0 <= w < nodes[sink as int].kfeat@.len() {
            assert(nodes[sink as int].kfeat@[w] == 0);
        }
        assert(node_count(nodes, 0, w) == 0);
        assert(node_count(nodes, sink, w) == 0);
        assert(path_count(nodes, one, w) == 0);
        assert(path_count(nodes, two, w) == node_count(nodes, node, w));
        assert(path_count(nodes, three, w) == node_count(nodes, node, w));
        assert(path_count(nodes, alone, w) == node_count(nodes, node, w));
    }
    assert(path_profile(nodes, three) =~= path_profile(nodes, alone));
}

/// With a perfect one-to-one match, pruning leaves one path to search: the one
/// from the source through the node of that match to the sink.
proof fn lemma_pruned_paths(
    g: DiGraph<VarNode, ()>,
    matches: Seq<ScoreModel>,
    node: usize,
)
    requires
        is_variant_graph(g),
        0 < node < graph_nodes(g).len() - 1,
        first_perfect(matches, 0) == Some(node),
    ensures
        all_paths(
            graph_edges(g),
            prune_set(graph_edges(g), matches, 0, (graph_nodes(g).len() - 1) as usize),
            graph_nodes(g).len() as int,
        ) == seq![seq![0usize, node, (graph_nodes(g).len() - 1) as usize]],
{
    let nodes = graph_nodes(g);
    let edges = graph_edges(g);
    let n = nodes.len() as int;
    let sink = (n - 1) as usize;
    let blocked = prune_set(edges, matches, 0, sink);
    let start = seq![0usize];
    let middle = seq![0usize, node];
    let whole = seq![0usize, node, sink];
    assert(edges.contains((0int, node as int)));
    assert(edges.contains((node as int, n - 1)));
    assert(usable(edges, blocked, 0, node as int));
    assert(usable(edges, blocked, node as int, n - 1));
    assert forall|j: int| 1 <= j < n && j != node implies !usable(edges, blocked, 0, j) by {
        if edges.contains((0int, j)) {
            assert(blocked.contains((0int, j)));
        }
    }
    assert forall|j: int| node + 1 <= j < n && j != n - 1 implies !usable(
        edges,
        blocked,
        node as int,
        j,
    ) by {
        if edges.contains((node as int, j)) {
            assert(blocked.contains((node as int, j)));
        }
    }
    assert(start.push(node) =~= middle);
    assert(middle.push(sink) =~= whole);
    lemma_extensions_single(edges, blocked, n, start, 1, node as int);
    lemma_extensions_single(edges, blocked, n, middle, node + 1, n - 1);
    assert(paths_from(edges, blocked, n, whole) == seq![whole]);
    assert(paths_from(edges, blocked, n, middle) == extensions(edges, blocked, n, middle, node + 1));
    assert(paths_from(edges, blocked, n, start) == extensions(edges, blocked, n, start, 1));
}

/// With a perfect one-to-one match and at least one path to score, the pruned
/// search returns a perfect score.
proof fn lemma_pruned_search(v: Variants, hap: Haplotype, params: KDParams)
    requires
        v.wf(),
        hap.wf(),
        params.maxpaths >= 1,
        first_perfect(one_to_one(v.nodes(), hap, params, v.nodes().len() - 1), 0) is Some,
    ensures
        ({
            let n = v.nodes().len() as int;
            let edges = graph_edges(v.graph);
            let matches = one_to_one(v.nodes(), hap, params, n - 1);
            let all = all_paths(edges, prune_set(edges, matches, 0, (n - 1) as usize), n);
            best_of_scores(
                path_scores(
                    v.nodes(),
                    all.take(smaller(params.maxpaths as int, all.len() as int)),
                    hap,
                    params,
                ),
            ).is_perfect()
        }),
{
    let nodes = v.nodes();
    let n = nodes.len() as int;
    let edges = graph_edges(v.graph);
    let matches = one_to_one(nodes, hap, params, n - 1);
    let node = first_perfect(matches, 0)->0;
    lemma_first_perfect(matches, 0);
    let k = choose|k: int|
        0 <= k < matches.len() && (#[trigger] matches[k]).is_perfect() && matches[k].path.len() > 0
            && matches[k].path[0] == node;
    lemma_one_to_one(nodes, hap, params, n - 1);
    assert(is_lone_match(nodes, hap, params, n - 1, matches[k]));
    let i = choose|i: int|
        1 <= i < n - 1 && matches[k] == #[trigger] lone_score(nodes, hap, params, i)
            && matches[k].path == seq![i as usize];
    assert(node == i);
    let sink = (n - 1) as usize;
    let whole = seq![0usize, node, sink];
    lemma_pruned_paths(v.graph, matches, node);
    let all = all_paths(edges, prune_set(edges, matches, 0, sink), n);
    assert(all.take(1) =~= all);
    let scores = path_scores(nodes, all, hap, params);
    let score = score_of(nodes, whole, hap, params);
    assert(scores[0] == score);
    lemma_anchored_sums(v.graph, node);
    lemma_best_match_sums(
        path_size(nodes, whole) as i64,
        path_profile(nodes, whole),
        whole,
        seq![node],
        hap.decompositions(),
        params,
        hap.decompositions().len() as int,
    );
    assert(score.is_perfect());
    lemma_score_of(nodes, whole, hap, params);
    lemma_empty_score_wf();
    lemma_perfect_is_best(score, ScoreModel::empty());
    lemma_score_trichotomy(score, ScoreModel::empty());
    assert(scores.drop_last() =~= Seq::<ScoreModel>::empty());
    assert(best_of_scores(scores.drop_last()) == ScoreModel::empty());
    assert(!ScoreModel::empty().is_perfect()) by {
        let z = crate::similarity::Similarity::spec_zero();
        assert(z.sq_num() == 0) by (nonlinear_arith)
            requires
                z.num == 0,
        ;
    }
    assert(ScoreModel::empty().worse_than(score));
    assert(best_of_scores(scores) == score);
}

impl Variants {
    /// Pruning is safe: the score that the search returns with pruning is never
    /// worse than the one it returns without, whatever else the parameters are.
    pub proof fn lemma_pruning_is_safe(self, hap: Haplotype, with: KDParams, without: KDParams)
        requires
            self.wf(),
            hap.wf(),
            with.prune,
            !without.prune,
            with == (KDParams { prune: true, ..without }),
        ensures
            !self.coverage_score(hap, with).worse_than(self.coverage_score(hap, without)),
    {
        let nodes = self.nodes();
        let n = nodes.len() as int;
        let edges = graph_edges(self.graph);
        let pruned = self.coverage_score(hap, with);
        let full = self.coverage_score(hap, without);
        lemma_score_trichotomy(full, full);
        lemma_empty_score_wf();
        if hap.n == 0 {
        } else if with.try_exact {
            lemma_one_to_one_thresholds(nodes, hap, with, without, n - 1);
        } else {
            let matches = one_to_one(nodes, hap, with, n - 1);
            let all = all_paths(edges, Set::empty(), n);
            let examined = all.take(smaller(without.maxpaths as int, all.len() as int));
            lemma_path_scores_thresholds(nodes, examined, hap, with, without);
            if first_perfect(matches, 0) is Some {
                if with.maxpaths >= 1 {
                    lemma_pruned_search(self, hap, with);
                    lemma_path_scores_wf(nodes, examined, hap, without);
                    lemma_best_of_scores(path_scores(nodes, examined, hap, without));
                    let some_all = all_paths(
                        edges,
                        prune_set(edges, matches, 0, (n - 1) as usize),
                        n,
                    );
                    let some_examined = some_all.take(
                        smaller(with.maxpaths as int, some_all.len() as int),
                    );
                    lemma_path_scores_wf(nodes, some_examined, hap, with);
                    lemma_best_of_scores(path_scores(nodes, some_examined, hap, with));
                    lemma_perfect_is_best(pruned, full);
                } else {
                    let some_all = all_paths(
                        edges,
                        prune_set(edges, matches, 0, (n - 1) as usize),
                        n,
                    );
                    assert(some_all.take(0) =~= Seq::<Seq<usize>>::empty());
                    assert(all.take(0) =~= Seq::<Seq<usize>>::empty());
                    assert(path_scores(nodes, some_all.take(0), hap, with) =~= Seq::<
                        ScoreModel,
                    >::empty());
                    assert(path_scores(nodes, all.take(0), hap, without) =~= Seq::<
                        ScoreModel,
                    >::empty());
                }
            }
        }
    }

    /// What the full search returns is the empty score or the score of a path
    /// of the graph from the source to the sink, and names that path.
    pub proof fn lemma_search_returns_a_path(self, hap: Haplotype, params: KDParams)
        requires
            self.wf(),
            hap.wf(),
            hap.n > 0,
            !params.try_exact,
        ensures
            self.coverage_score(hap, params) == ScoreModel::empty().with_coverage(hap.coverage)
                || (is_source_sink_path(
                graph_edges(self.graph),
                Set::empty(),
                self.nodes().len() as int,
                self.coverage_score(hap, params).path,
            ) && self.coverage_score(hap, params) == score_of(
                self.nodes(),
                self.coverage_score(hap, params).path,
                hap,
                params,
            ).with_coverage(hap.coverage)),
    {
        let nodes = self.nodes();
        let n = nodes.len() as int;
        let edges = graph_edges(self.graph);
        let matches = if params.prune {
            one_to_one(nodes, hap, params, n - 1)
        } else {
            Seq::empty()
        };
        let blocked = if params.prune {
            prune_set(edges, matches, 0, (n - 1) as usize)
        } else {
            Set::empty()
        };
        let all = all_paths(edges, blocked, n);
        let examined = all.take(smaller(params.maxpaths as int, all.len() as int));
        let scores = path_scores(nodes, examined, hap, params);
        let best = best_of_scores(scores);
        lemma_path_scores_wf(nodes, examined, hap, params);
        lemma_best_of_scores(scores);
        if best != ScoreModel::empty() {
            let k = choose|k: int| 0 <= k < scores.len() && scores[k] == best;
            assert(examined[k] == all[k]);
            lemma_score_of(nodes, all[k], hap, params);
            assert(best.path == all[k]);
            lemma_all_paths_exact(edges, blocked, n);
            assert(all.contains(all[k]));
            lemma_path_of_graph(edges, blocked, n, all[k]);
        }
    }

    /// An exact match is found. Let the sizes and the profiles of the variants
    /// on some path from source to sink add up to the size and the profile of
    /// the haplotype, let the profile keep a count and its norm fit in 64 bits,
    /// and let the full search reach every path (`maxpaths` is at least their
    /// number). Then the score that the full search returns has both
    /// similarities at 1. It is the score of the path that it names, which is a
    /// path of the graph from source to sink and explains a decomposition of
    /// the haplotype: the haplotype itself where it has no parts. Where several
    /// paths do so, `lemma_best_is_first` says which one is named.
    pub proof fn lemma_exact_match(self, hap: Haplotype, params: KDParams, subset: Seq<usize>)
        requires
            self.wf(),
            hap.wf(),
            params.wf(),
            hap.n > 0,
            !params.try_exact,
            is_source_sink_path(
                graph_edges(self.graph),
                Set::empty(),
                self.nodes().len() as int,
                subset,
            ),
            path_fits(self.nodes(), subset),
            hap.size == path_size(self.nodes(), subset),
            hap.kfeat@ == path_profile(self.nodes(), subset),
            0 < dot_upto(hap.kfeat@, hap.kfeat@, params.minkfreq, hap.kfeat@.len() as int)
                <= u64::MAX,
            all_paths(graph_edges(self.graph), Set::empty(), self.nodes().len() as int).len()
                <= params.maxpaths,
        ensures
            self.coverage_score(hap, params).is_perfect(),
            is_source_sink_path(
                graph_edges(self.graph),
                Set::empty(),
                self.nodes().len() as int,
                self.coverage_score(hap, params).path,
            ),
            self.coverage_score(hap, params) == score_of(
                self.nodes(),
                self.coverage_score(hap, params).path,
                hap,
                params,
            ).with_coverage(hap.coverage),
            exists|j: int|
                0 <= j < hap.decompositions().len() && explains(
                    self.nodes(),
                    self.coverage_score(hap, params).path,
                    #[trigger] hap.decompositions()[j],
                    params.minkfreq,
                ),
            hap.parts@.len() == 0 ==> explains(
                self.nodes(),
                self.coverage_score(hap, params).path,
                hap.whole(),
                params.minkfreq,
            ),
    {
        self.lemma_exact_match_is_perfect(hap, params, subset);
        self.lemma_search_returns_a_path(hap, params);
        let found = self.coverage_score(hap, params);
        assert(!ScoreModel::empty().with_coverage(hap.coverage).is_perfect()) by {
            let z = crate::similarity::Similarity::spec_zero();
            assert(z.sq_num() == 0) by (nonlinear_arith)
                requires
                    z.num == 0,
            ;
        }
        lemma_perfect_score_explains(self.nodes(), found.path, hap, params);
        let j = choose|j: int|
            0 <= j < hap.decompositions().len() && explains(
                self.nodes(),
                found.path,
                #[trigger] hap.decompositions()[j],
                params.minkfreq,
            );
        if hap.parts@.len() == 0 {
            assert(j == 0);
            assert(hap.decompositions()[0] == hap.whole());
        }
    }

    /// The score that the full search returns for an exact match has both
    /// similarities at 1.
    proof fn lemma_exact_match_is_perfect(self, hap: Haplotype, params: KDParams, subset: Seq<usize>)
        requires
            self.wf(),
            hap.wf(),
            params.wf(),
            hap.n > 0,
            !params.try_exact,
            is_source_sink_path(
                graph_edges(self.graph),
                Set::empty(),
                self.nodes().len() as int,
                subset,
            ),
            path_fits(self.nodes(), subset),
            hap.size == path_size(self.nodes(), subset),
            hap.kfeat@ == path_profile(self.nodes(), subset),
            0 < dot_upto(hap.kfeat@, hap.kfeat@, params.minkfreq, hap.kfeat@.len() as int)
                <= u64::MAX,
            all_paths(graph_edges(self.graph), Set::empty(), self.nodes().len() as int).len()
                <= params.maxpaths,
        ensures
            self.coverage_score(hap, params).is_perfect(),
    {
        let nodes = self.nodes();
        let n = nodes.len() as int;
        let edges = graph_edges(self.graph);
        let all = all_paths(edges, Set::empty(), n);
        lemma_all_paths_complete(edges, Set::empty(), n, subset);
        let at = choose|at: int| 0 <= at < all.len() && all[at] == subset;
        let matches = one_to_one(nodes, hap, params, n - 1);
        if params.prune && first_perfect(matches, 0) is Some {
            lemma_pruned_search(self, hap, params);
        } else {
            assert(all.take(all.len() as int) =~= all);
            let scores = path_scores(nodes, all, hap, params);
            let score = score_of(nodes, subset, hap, params);
            assert(scores[at] == score);
            // the haplotype as a whole is a perfect match of the subset
            let size = path_size(nodes, subset) as i64;
            let profile = path_profile(nodes, subset);
            let decs = hap.decompositions();
            let whole = decs[0];
            assert(whole == hap.whole());
            lemma_empty_score_wf();
            lemma_size_similarity(magnitude(size), magnitude(size));
            lemma_sequence_similarity_self(profile, params.minkfreq);
            lemma_sequence_similarity_wf(profile, profile, params.minkfreq);
            lemma_match_wf(size, profile, whole, params);
            let size_sim = crate::metrics::size_similarity(magnitude(size), magnitude(size));
            let seq_sim = crate::metrics::sequence_similarity(profile, profile, params.minkfreq);
            lemma_value_bounds(size_sim, params.sizesim);
            lemma_value_bounds(seq_sim, params.seqsim);
            assert(match_of(size, profile, whole, params) == Some((size_sim, seq_sim)));
            let found = ScoreModel::of_similarities((size_sim, seq_sim));
            assert forall|i: int| 0 <= i < decs.len() implies (#[trigger] decs[i]).weight.wf() by {
                if i > 0 {
                    assert(hap.parts@[i - 1].weight.wf());
                }
            }
            lemma_best_match(size, profile, subset, decs, params, decs.len() as int);
            assert(match_of(size, profile, decs[0], params) is Some);
            assert(!score.worse_than(found));
            lemma_empty_score_wf();
            lemma_score_of(nodes, subset, hap, params);
            lemma_perfect_is_best(found, score);
            assert(score.is_perfect());
            lemma_path_scores_wf(nodes, all, hap, params);
            lemma_best_of_scores(scores);
            let best = best_of_scores(scores);
            assert(!best.worse_than(scores[at]));
            lemma_perfect_is_best(score, best);
        }
    }
}

} // verus!
