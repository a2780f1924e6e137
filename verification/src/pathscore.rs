//! The score of a path against a haplotype, and the order of scores.

use vstd::prelude::*;
use crate::cli::KDParams;
use crate::haplotype::{Decomposition, Haplotype};
use crate::metrics::{
    in_proportion, lemma_sequence_similarity_wf, lemma_similarity_one_is_proportional,
    lemma_size_similarity, seqsim, sequence_similarity, size_similarity, sizesim,
};
use crate::similarity::{
    lemma_cross_le_le, lemma_cross_le_lt, lemma_cross_lt_le, Similarity,
};
use crate::vargraph::{graph_node_count, graph_node_weight, graph_nodes, is_variant_graph, VarNode};
use petgraph::graph::DiGraph;
use std::cmp::Ordering;

verus! {

/// How well a set of variants explains a haplotype.
#[derive(Clone, Debug)]
pub struct PathScore {
    pub sizesim: Similarity,
    pub seqsim: Similarity,
    pub coverage: Option<u64>,
    pub path: Vec<usize>,
    /// Fraction of the haplotype used.
    pub align_pct: Similarity,
}

/// A score as a value.
pub struct ScoreModel {
    pub sizesim: Similarity,
    pub seqsim: Similarity,
    pub coverage: Option<u64>,
    pub path: Seq<usize>,
    pub align_pct: Similarity,
}

impl View for PathScore {
    type V = ScoreModel;

    open spec fn view(&self) -> ScoreModel {
        ScoreModel {
            sizesim: self.sizesim,
            seqsim: self.seqsim,
            coverage: self.coverage,
            path: self.path@,
            align_pct: self.align_pct,
        }
    }
}

impl ScoreModel {
    /// The three fractions of the score are well formed.
    pub open spec fn wf(self) -> bool {
        self.sizesim.wf() && self.seqsim.wf() && self.align_pct.wf()
    }

    /// The score that every match has to exceed: no similarity, no path.
    pub open spec fn empty() -> ScoreModel {
        ScoreModel {
            sizesim: Similarity::spec_zero(),
            seqsim: Similarity::spec_zero(),
            coverage: None,
            path: Seq::empty(),
            align_pct: Similarity::spec_zero(),
        }
    }

    /// `self` is worse than `other`: smaller in size similarity or, with the
    /// same size similarity, smaller in sequence similarity.
    pub open spec fn worse_than(self, other: ScoreModel) -> bool {
        self.sizesim.value_lt(other.sizesim) || (self.sizesim.value_eq(other.sizesim)
            && self.seqsim.value_lt(other.seqsim))
    }

    /// `self` and `other` are equal as scores: both similarities are the same
    /// numbers.
    pub open spec fn ties_with(self, other: ScoreModel) -> bool {
        self.sizesim.value_eq(other.sizesim) && self.seqsim.value_eq(other.seqsim)
    }

    /// Both similarities are 1.
    pub open spec fn is_perfect(self) -> bool {
        self.sizesim.is_one() && self.seqsim.is_one()
    }

    /// The score with the coverage set.
    pub open spec fn with_coverage(self, coverage: u64) -> ScoreModel {
        ScoreModel { coverage: Some(coverage), ..self }
    }
}

impl PathScore {
    /// Whether `self` is a strictly better score than `other`.
    pub fn better_than(&self, other: &PathScore) -> (r: bool)
        ensures
            r == other@.worse_than(self@),
    {
        if other.sizesim.less_than(&self.sizesim) {
            true
        } else if other.sizesim.same_as(&self.sizesim) {
            other.seqsim.less_than(&self.seqsim)
        } else {
            false
        }
    }

    /// Whether `self` and `other` are equal as scores.
    pub fn same_score(&self, other: &PathScore) -> (r: bool)
        ensures
            r == self@.ties_with(other@),
    {
        self.sizesim.same_as(&other.sizesim) && self.seqsim.same_as(&other.seqsim)
    }

    /// Whether the score is that of a match: it names a path.
    pub fn is_match(&self) -> (r: bool)
        ensures
            r == (self@.path.len() > 0),
    {
        self.path.len() > 0
    }

    /// Whether both similarities are 1.
    pub fn is_perfect(&self) -> (r: bool)
        ensures
            r == self@.is_perfect(),
    {
        self.sizesim.is_one_value() && self.seqsim.is_one_value()
    }
}

impl PartialEq for PathScore {
    /// Two scores are equal where both similarities are the same numbers.
    fn eq(&self, other: &Self) -> (r: bool) {
        self.same_score(other)
    }
}

impl vstd::std_specs::cmp::PartialEqSpecImpl for PathScore {
    open spec fn obeys_eq_spec() -> bool {
        true
    }

    open spec fn eq_spec(&self, other: &Self) -> bool {
        self@.ties_with(other@)
    }
}

impl PartialOrd for PathScore {
    /// Scores are ordered by size similarity and then by sequence similarity.
    fn partial_cmp(&self, other: &Self) -> (r: Option<Ordering>) {
        if other.better_than(self) {
            Some(Ordering::Less)
        } else if self.better_than(other) {
            Some(Ordering::Greater)
        } else {
            Some(Ordering::Equal)
        }
    }
}

impl vstd::std_specs::cmp::PartialOrdSpecImpl for PathScore {
    open spec fn obeys_partial_cmp_spec() -> bool {
        true
    }

    open spec fn partial_cmp_spec(&self, other: &Self) -> Option<Ordering> {
        if self@.worse_than(other@) {
            Some(Ordering::Less)
        } else if other@.worse_than(self@) {
            Some(Ordering::Greater)
        } else {
            Some(Ordering::Equal)
        }
    }
}

impl Default for PathScore {
    fn default() -> (r: PathScore)
        ensures
            r@ == ScoreModel::empty(),
    {
        PathScore {
            path: Vec::new(),
            sizesim: Similarity::zero(),
            seqsim: Similarity::zero(),
            coverage: None,
            align_pct: Similarity::zero(),
        }
    }
}

/// Of two scores exactly one is worse than the other, or they tie.
pub proof fn lemma_score_trichotomy(a: ScoreModel, b: ScoreModel)
    ensures
        a.worse_than(b) || b.worse_than(a) || a.ties_with(b),
        !(a.worse_than(b) && b.worse_than(a)),
        !(a.worse_than(b) && a.ties_with(b)),
        !a.worse_than(a),
        a.ties_with(a),
        a.ties_with(b) == b.ties_with(a),
{
}

/// The order of scores is transitive.
pub proof fn lemma_score_order_transitive(a: ScoreModel, b: ScoreModel, c: ScoreModel)
    requires
        a.wf(),
        b.wf(),
        c.wf(),
        a.worse_than(b),
        b.worse_than(c),
    ensures
        a.worse_than(c),
{
    let (p, q) = (a.sizesim.sq_num(), a.sizesim.sq_den());
    let (r, s) = (b.sizesim.sq_num(), b.sizesim.sq_den());
    let (t, u) = (c.sizesim.sq_num(), c.sizesim.sq_den());
    let (p2, q2) = (a.seqsim.sq_num(), a.seqsim.sq_den());
    let (r2, s2) = (b.seqsim.sq_num(), b.seqsim.sq_den());
    let (t2, u2) = (c.seqsim.sq_num(), c.seqsim.sq_den());
    if a.sizesim.value_lt(b.sizesim) {
        lemma_cross_lt_le(p, q, r, s, t, u);
    } else if b.sizesim.value_lt(c.sizesim) {
        lemma_cross_le_lt(p, q, r, s, t, u);
    } else {
        lemma_cross_le_le(p, q, r, s, t, u);
        lemma_cross_le_le(t, u, r, s, p, q);
        lemma_cross_lt_le(p2, q2, r2, s2, t2, u2);
    }
}

/// A score that is not worse than a second, which is not worse than a third,
/// is not worse than the third.
pub proof fn lemma_score_not_worse_transitive(a: ScoreModel, b: ScoreModel, c: ScoreModel)
    requires
        a.wf(),
        b.wf(),
        c.wf(),
        !a.worse_than(b),
        !b.worse_than(c),
    ensures
        !a.worse_than(c),
{
    lemma_score_trichotomy(a, b);
    lemma_score_trichotomy(b, c);
    let (p, q) = (a.sizesim.sq_num(), a.sizesim.sq_den());
    let (r, s) = (b.sizesim.sq_num(), b.sizesim.sq_den());
    let (t, u) = (c.sizesim.sq_num(), c.sizesim.sq_den());
    let (p2, q2) = (a.seqsim.sq_num(), a.seqsim.sq_den());
    let (r2, s2) = (b.seqsim.sq_num(), b.seqsim.sq_den());
    let (t2, u2) = (c.seqsim.sq_num(), c.seqsim.sq_den());
    // c <= b <= a in size similarity
    lemma_cross_le_le(t, u, r, s, p, q);
    if a.sizesim.value_eq(c.sizesim) {
        // then b has the same size similarity as both
        if b.sizesim.value_lt(a.sizesim) {
            lemma_cross_le_lt(t, u, r, s, p, q);
        }
        if c.sizesim.value_lt(b.sizesim) {
            lemma_cross_lt_le(t, u, r, s, p, q);
        }
        lemma_cross_le_le(t2, u2, r2, s2, p2, q2);
    }
}

/// No score is better than a perfect one.
pub proof fn lemma_perfect_is_best(a: ScoreModel, b: ScoreModel)
    requires
        a.wf(),
        b.wf(),
        a.is_perfect(),
    ensures
        !a.worse_than(b),
        !b.worse_than(a) ==> b.is_perfect(),
{
    crate::similarity::lemma_value_bounds(a.sizesim, b.sizesim);
    crate::similarity::lemma_value_bounds(a.seqsim, b.seqsim);
    let (p, q) = (a.sizesim.sq_num(), a.sizesim.sq_den());
    let (r, s) = (b.sizesim.sq_num(), b.sizesim.sq_den());
    let (p2, q2) = (a.seqsim.sq_num(), a.seqsim.sq_den());
    let (r2, s2) = (b.seqsim.sq_num(), b.seqsim.sq_den());
    if !b.worse_than(a) {
        assert(r == s) by (nonlinear_arith)
            requires
                p == q,
                0 < q,
                0 < s,
                r <= s,
                r * q >= p * s,
        ;
        assert(p * s == r * q) by (nonlinear_arith)
            requires
                p == q,
                r == s,
        ;
        assert(r2 == s2) by (nonlinear_arith)
            requires
                p2 == q2,
                0 < q2,
                0 < s2,
                r2 <= s2,
                r2 * q2 >= p2 * s2,
        ;
    }
}

/// The size of the node that a handle names, and 0 for a handle that names
/// none.
pub open spec fn node_size(nodes: Seq<VarNode>, handle: usize) -> int {
    if handle < nodes.len() {
        nodes[handle as int].size as int
    } else {
        0
    }
}

/// The count of the word `w` in the node that a handle names, and 0 for a
/// handle that names none.
pub open spec fn node_count(nodes: Seq<VarNode>, handle: usize, w: int) -> int {
    if handle < nodes.len() && 0 <= w < nodes[handle as int].kfeat@.len() {
        nodes[handle as int].kfeat@[w] as int
    } else {
        0
    }
}

/// The sum of the sizes of the nodes on a path.
pub open spec fn path_size(nodes: Seq<VarNode>, path: Seq<usize>) -> int
    decreases path.len(),
{
    if path.len() == 0 {
        0
    } else {
        path_size(nodes, path.drop_last()) + node_size(nodes, path.last())
    }
}

/// The sum of the counts of the word `w` in the nodes on a path.
pub open spec fn path_count(nodes: Seq<VarNode>, path: Seq<usize>, w: int) -> int
    decreases path.len(),
{
    if path.len() == 0 {
        0
    } else {
        path_count(nodes, path.drop_last(), w) + node_count(nodes, path.last(), w)
    }
}

/// The number of counts in the profiles of a graph.
pub open spec fn profile_width(nodes: Seq<VarNode>) -> nat {
    nodes[0].kfeat@.len()
}

/// The sums over the path fit in the machine: the size in 64 bits with a sign,
/// every count in 64 bits.
pub open spec fn path_fits(nodes: Seq<VarNode>, path: Seq<usize>) -> bool {
    &&& i64::MIN <= path_size(nodes, path) <= i64::MAX
    &&& forall|w: int| 0 <= w < profile_width(nodes) ==> path_count(nodes, path, w) <= u64::MAX
}

/// The sum of the profiles of the nodes on a path.
pub open spec fn path_profile(nodes: Seq<VarNode>, path: Seq<usize>) -> Seq<u64> {
    Seq::new(profile_width(nodes), |w: int| path_count(nodes, path, w) as u64)
}

/// The sign of a number: -1, 0 or 1.
pub open spec fn signum(x: int) -> int {
    if x < 0 {
        -1
    } else if x == 0 {
        0
    } else {
        1
    }
}

/// A size without its sign.
pub open spec fn magnitude(x: i64) -> u64 {
    if x < 0 {
        (-x) as u64
    } else {
        x as u64
    }
}

/// The two similarities of a path with the given sums to a decomposition, where
/// the decomposition is a match: the sizes have one sign, and neither
/// similarity lies below its threshold.
pub open spec fn match_of(size: i64, profile: Seq<u64>, d: Decomposition, params: KDParams) -> Option<
    (Similarity, Similarity),
> {
    let size_sim = size_similarity(magnitude(size), magnitude(d.size));
    let seq_sim = sequence_similarity(profile, d.profile, params.minkfreq);
    if signum(size as int) != signum(d.size as int) {
        None
    } else if size_sim.value_lt(params.sizesim) {
        None
    } else if seq_sim.value_lt(params.seqsim) {
        None
    } else {
        Some((size_sim, seq_sim))
    }
}

/// The best score of a path among the first `upto` decompositions: the first
/// match that no later match exceeds, and the empty score where no match
/// exceeds that.
pub open spec fn best_match(
    size: i64,
    profile: Seq<u64>,
    path: Seq<usize>,
    decs: Seq<Decomposition>,
    params: KDParams,
    upto: int,
) -> ScoreModel
    decreases upto,
{
    if upto <= 0 {
        ScoreModel::empty()
    } else {
        let before = best_match(size, profile, path, decs, params, upto - 1);
        match match_of(size, profile, decs[upto - 1], params) {
            Some((size_sim, seq_sim)) => {
                let found = ScoreModel {
                    sizesim: size_sim,
                    seqsim: seq_sim,
                    coverage: None,
                    path: path,
                    align_pct: decs[upto - 1].weight,
                };
                if before.worse_than(found) {
                    found
                } else {
                    before
                }
            },
            None => before,
        }
    }
}

/// The best score so far while the decompositions are gone through.
struct Running {
    size_sim: Similarity,
    seq_sim: Similarity,
    weight: Similarity,
    found: bool,
}

impl Running {
    /// The score that is returned for `path` if nothing better follows.
    spec fn model(self, path: Seq<usize>) -> ScoreModel {
        ScoreModel {
            sizesim: self.size_sim,
            seqsim: self.seq_sim,
            coverage: None,
            path: if self.found {
                path
            } else {
                Seq::empty()
            },
            align_pct: self.weight,
        }
    }

    /// Nothing has been compared yet.
    fn start() -> (r: Running)
        ensures
            forall|path: Seq<usize>| #[trigger] r.model(path) == ScoreModel::empty(),
    {
        Running {
            size_sim: Similarity::zero(),
            seq_sim: Similarity::zero(),
            weight: Similarity::zero(),
            found: false,
        }
    }

    /// The best score after the decomposition at `at` has been compared.
    fn consider(
        self,
        size: i64,
        profile: &Vec<u64>,
        part_size: i64,
        part_profile: &Vec<u64>,
        weight: Similarity,
        params: &KDParams,
        Ghost(path): Ghost<Seq<usize>>,
        Ghost(decs): Ghost<Seq<Decomposition>>,
        Ghost(at): Ghost<int>,
    ) -> (r: Running)
        requires
            0 <= at < decs.len(),
            decs[at].size == part_size,
            decs[at].profile == part_profile@,
            decs[at].weight == weight,
            self.model(path) == best_match(size, profile@, path, decs, *params, at),
        ensures
            r.model(path) == best_match(size, profile@, path, decs, *params, at + 1),
    {
        match compare_with(size, profile, part_size, part_profile, params) {
            Some((size_sim, seq_sim)) => {
                let better = if self.size_sim.less_than(&size_sim) {
                    true
                } else if self.size_sim.same_as(&size_sim) {
                    self.seq_sim.less_than(&seq_sim)
                } else {
                    false
                };
                if better {
                    Running { size_sim, seq_sim, weight, found: true }
                } else {
                    self
                }
            },
            None => self,
        }
    }
}

/// The score of a path against a haplotype: its best score among the
/// decompositions of the haplotype, and the empty score for a path whose sums
/// do not fit.
pub open spec fn score_of(
    nodes: Seq<VarNode>,
    path: Seq<usize>,
    target: Haplotype,
    params: KDParams,
) -> ScoreModel {
    if path_fits(nodes, path) {
        best_match(
            path_size(nodes, path) as i64,
            path_profile(nodes, path),
            path,
            target.decompositions(),
            params,
            target.decompositions().len() as int,
        )
    } else {
        ScoreModel::empty()
    }
}

/// The counts on a path are not negative, and a longer path has no smaller
/// counts.
pub proof fn lemma_path_count_monotone(nodes: Seq<VarNode>, path: Seq<usize>, w: int, i: int)
    requires
        0 <= i <= path.len(),
    ensures
        0 <= path_count(nodes, path.take(i), w) <= path_count(nodes, path, w),
    decreases path.len(),
{
    if path.len() == 0 {
        assert(path.take(i) == path);
    } else if i == path.len() {
        assert(path.take(i) == path);
        lemma_path_count_monotone(nodes, path.drop_last(), w, i - 1);
        assert(path.drop_last().take(i - 1) == path.drop_last());
    } else {
        lemma_path_count_monotone(nodes, path.drop_last(), w, i);
        assert(path.drop_last().take(i) == path.take(i));
    }
}

/// The sums of size and profile over a path, where they fit.
fn path_totals(graph: &DiGraph<VarNode, ()>, path: &Vec<usize>) -> (r: Option<(i64, Vec<u64>)>)
    requires
        is_variant_graph(*graph),
    ensures
        r is Some <==> path_fits(graph_nodes(*graph), path@),
        r matches Some(t) ==> t.0 == path_size(graph_nodes(*graph), path@) && t.1@ == path_profile(
            graph_nodes(*graph),
            path@,
        ),
{
    let ghost nodes = graph_nodes(*graph);
    let n = graph_node_count(graph);
    let width: usize = match graph_node_weight(graph, 0) {
        Some(first) => first.kfeat.len(),
        None => 0,
    };
    let mut profile: Vec<u64> = vec![0u64; width];
    let mut size: i128 = 0;
    let mut i: usize = 0;
    while i < path.len()
        invariant
            i <= path@.len(),
            nodes == graph_nodes(*graph),
            is_variant_graph(*graph),
            n == nodes.len(),
            width == profile_width(nodes),
            profile@.len() == width,
            size == path_size(nodes, path@.take(i as int)),
            -(i * 0x8000_0000_0000_0000) <= size <= i * 0x8000_0000_0000_0000,
            forall|x: int|
                0 <= x < width ==> #[trigger] profile@[x] == path_count(
                    nodes,
                    path@.take(i as int),
                    x,
                ),
        decreases path@.len() - i,
    {
        let handle = path[i];
        proof {
            assert(path@.take(i + 1).drop_last() == path@.take(i as int));
        }
        if handle < n {
            if let Some(node) = graph_node_weight(graph, handle) {
                size = size + node.size as i128;
                let mut w: usize = 0;
                while w < width
                    invariant
                        w <= width,
                        i < path@.len(),
                        handle == path@[i as int],
                        handle < nodes.len(),
                        *node == nodes[handle as int],
                        node.kfeat@.len() == width,
                        profile@.len() == width,
                        path@.take(i + 1).drop_last() == path@.take(i as int),
                        width == profile_width(nodes),
                        nodes == graph_nodes(*graph),
                        forall|x: int|
                            0 <= x < w ==> #[trigger] profile@[x] == path_count(
                                nodes,
                                path@.take(i + 1),
                                x,
                            ),
                        forall|x: int|
                            w <= x < width ==> #[trigger] profile@[x] == path_count(
                                nodes,
                                path@.take(i as int),
                                x,
                            ),
                    decreases width - w,
                {
                    match profile[w].checked_add(node.kfeat[w]) {
                        Some(sum) => {
                            profile.set(w, sum);
                        },
                        None => {
                            proof {
                                lemma_path_count_monotone(nodes, path@, w as int, i + 1);
                                assert(profile@[w as int] == path_count(
                                    nodes,
                                    path@.take(i as int),
                                    w as int,
                                ));
                                assert(node.kfeat@[w as int] == node_count(nodes, handle, w as int));
                                assert(path@.take(i + 1).last() == handle);
                                assert(path_count(nodes, path@.take(i + 1), w as int) == path_count(
                                    nodes,
                                    path@.take(i as int),
                                    w as int,
                                ) + node_count(nodes, handle, w as int));
                            }
                            return None;
                        },
                    }
                    w += 1;
                }
            }
        }
        i += 1;
    }
    proof {
        assert(path@.take(path@.len() as int) == path@);
    }
    if size < -0x8000_0000_0000_0000i128 || size > 0x7FFF_FFFF_FFFF_FFFFi128 {
        return None;
    }
    proof {
        assert forall|x: int| 0 <= x < profile_width(nodes) implies path_count(nodes, path@, x)
            <= u64::MAX by {
            assert(profile@[x] == path_count(nodes, path@, x));
        }
        assert(profile@ =~= path_profile(nodes, path@));
    }
    Some((size as i64, profile))
}

/// A size without its sign.
fn magnitude_of(x: i64) -> (r: u64)
    ensures
        r == magnitude(x),
{
    if x < 0 {
        (-(x as i128)) as u64
    } else {
        x as u64
    }
}

/// Whether two sizes have one sign.
fn same_sign(x: i64, y: i64) -> (r: bool)
    ensures
        r == (signum(x as int) == signum(y as int)),
{
    (x < 0 && y < 0) || (x == 0 && y == 0) || (x > 0 && y > 0)
}

/// The similarities of sums to a decomposition, where that is a match.
fn compare_with(
    size: i64,
    profile: &Vec<u64>,
    part_size: i64,
    part_profile: &Vec<u64>,
    params: &KDParams,
) -> (r: Option<(Similarity, Similarity)>)
    ensures
        r == match_of(
            size,
            profile@,
            Decomposition { size: part_size, profile: part_profile@, weight: Similarity::spec_one() },
            *params,
        ),
{
    if !same_sign(size, part_size) {
        return None;
    }
    let size_sim = sizesim(magnitude_of(size), magnitude_of(part_size));
    if size_sim.less_than(&params.sizesim) {
        return None;
    }
    let seq_sim = seqsim(profile, part_profile, params.minkfreq);
    if seq_sim.less_than(&params.seqsim) {
        return None;
    }
    Some((size_sim, seq_sim))
}

impl PathScore {
    /// The score of `path` against `target`.
    ///
    /// The sizes and profiles of the nodes on the path are summed. The sums
    /// are compared with each decomposition of the haplotype in turn; one that
    /// has another sign, or a similarity below its threshold, is passed over.
    /// The best of the others is the score, with the weight of its
    /// decomposition as the fraction of the haplotype used.
    pub fn new(
        graph: &DiGraph<VarNode, ()>,
        path: Vec<usize>,
        target: &Haplotype,
        params: &KDParams,
    ) -> (r: Self)
        requires
            is_variant_graph(*graph),
        ensures
            r@ == score_of(graph_nodes(*graph), path@, *target, *params),
    {
        let (size, profile) = match path_totals(graph, &path) {
            Some(totals) => totals,
            None => {
                return PathScore::default();
            },
        };
        let ghost decs = target.decompositions();
        let mut best = Running::start();
        best = best.consider(
            size,
            &profile,
            target.size,
            &target.kfeat,
            Similarity::one(),
            params,
            Ghost(path@),
            Ghost(decs),
            Ghost(0),
        );
        let mut i: usize = 0;
        while i < target.parts.len()
            invariant
                i <= target.parts@.len(),
                decs == target.decompositions(),
                best.model(path@) == best_match(size, profile@, path@, decs, *params, i + 1),
            decreases target.parts@.len() - i,
        {
            let part = &target.parts[i];
            best = best.consider(
                size,
                &profile,
                part.size,
                &part.kfeat,
                part.weight,
                params,
                Ghost(path@),
                Ghost(decs),
                Ghost(i + 1),
            );
            i += 1;
        }
        PathScore {
            sizesim: best.size_sim,
            seqsim: best.seq_sim,
            coverage: None,
            path: if best.found {
                path
            } else {
                Vec::new()
            },
            align_pct: best.weight,
        }
    }
}

impl ScoreModel {
    /// The score with these two similarities and nothing else.
    pub open spec fn of_similarities(m: (Similarity, Similarity)) -> ScoreModel {
        ScoreModel { sizesim: m.0, seqsim: m.1, ..ScoreModel::empty() }
    }
}

/// The empty score is well formed.
pub proof fn lemma_empty_score_wf()
    ensures
        ScoreModel::empty().wf(),
        Similarity::spec_zero().wf(),
        Similarity::spec_one().wf(),
{
    let z = Similarity::spec_zero();
    let o = Similarity::spec_one();
    assert(z.num * z.num == 0 && o.num * o.num == 1) by (nonlinear_arith)
        requires
            z.num == 0,
            o.num == 1,
    ;
}

/// The similarities of a match are well formed.
pub proof fn lemma_match_wf(size: i64, profile: Seq<u64>, d: Decomposition, params: KDParams)
    ensures
        match_of(size, profile, d, params) matches Some(m) ==> m.0.wf() && m.1.wf(),
{
    lemma_size_similarity(magnitude(size), magnitude(d.size));
    lemma_sequence_similarity_wf(profile, d.profile, params.minkfreq);
}

/// `score` is the score that the decomposition at `j` gives to a path with
/// these sums: the decomposition is a match, and the score has its two
/// similarities and its weight.
pub open spec fn is_score_at(
    size: i64,
    profile: Seq<u64>,
    path: Seq<usize>,
    decs: Seq<Decomposition>,
    params: KDParams,
    j: int,
    score: ScoreModel,
) -> bool {
    &&& match_of(size, profile, decs[j], params) == Some((score.sizesim, score.seqsim))
    &&& score.align_pct == decs[j].weight
    &&& score.path == path
    &&& score.coverage is None
}

/// The best score among decompositions is well formed, is the empty score or
/// the score that one of them gives, and is not worse than the empty score or
/// than any match among them.
pub proof fn lemma_best_match(
    size: i64,
    profile: Seq<u64>,
    path: Seq<usize>,
    decs: Seq<Decomposition>,
    params: KDParams,
    upto: int,
)
    requires
        0 <= upto <= decs.len(),
        forall|i: int| 0 <= i < decs.len() ==> (#[trigger] decs[i]).weight.wf(),
    ensures
        best_match(size, profile, path, decs, params, upto).wf(),
        best_match(size, profile, path, decs, params, upto) == ScoreModel::empty() || best_match(
            size,
            profile,
            path,
            decs,
            params,
            upto,
        ).path == path,
        !best_match(size, profile, path, decs, params, upto).worse_than(ScoreModel::empty()),
        forall|k: int|
            0 <= k < upto ==> ((#[trigger] match_of(size, profile, decs[k], params)) matches Some(
                m,
            ) ==> !best_match(size, profile, path, decs, params, upto).worse_than(
                ScoreModel::of_similarities(m),
            )),
        best_match(size, profile, path, decs, params, upto) == ScoreModel::empty() || exists|
            j: int,
        |
            0 <= j < upto && #[trigger] is_score_at(
                size,
                profile,
                path,
                decs,
                params,
                j,
                best_match(size, profile, path, decs, params, upto),
            ),
    decreases upto,
{
    lemma_empty_score_wf();
    if upto > 0 {
        lemma_best_match(size, profile, path, decs, params, upto - 1);
        let before = best_match(size, profile, path, decs, params, upto - 1);
        let now = best_match(size, profile, path, decs, params, upto);
        if now == before {
            if before != ScoreModel::empty() {
                let j = choose|j: int|
                    0 <= j < upto - 1 && #[trigger] is_score_at(
                        size,
                        profile,
                        path,
                        decs,
                        params,
                        j,
                        before,
                    );
                assert(0 <= j < upto && is_score_at(size, profile, path, decs, params, j, now));
            }
        } else {
            assert(is_score_at(size, profile, path, decs, params, upto - 1, now));
        }
        lemma_match_wf(size, profile, decs[upto - 1], params);
        assert(decs[upto - 1].weight.wf());
        lemma_score_trichotomy(before, ScoreModel::empty());
        match match_of(size, profile, decs[upto - 1], params) {
            Some(m) => {
                let found = ScoreModel::of_similarities(m);
                lemma_score_trichotomy(before, found);
                if before.worse_than(found) {
                    assert(now.ties_with(found));
                    lemma_score_trichotomy(now, found);
                    if now.worse_than(ScoreModel::empty()) {
                        lemma_score_order_transitive(before, now, ScoreModel::empty());
                    }
                    assert forall|k: int| 0 <= k < upto implies ((#[trigger] match_of(
                        size,
                        profile,
                        decs[k],
                        params,
                    )) matches Some(other) ==> !now.worse_than(
                        ScoreModel::of_similarities(other),
                    )) by {
                        if k < upto - 1 {
                            match match_of(size, profile, decs[k], params) {
                                Some(other) => {
                                    lemma_match_wf(size, profile, decs[k], params);
                                    let o = ScoreModel::of_similarities(other);
                                    if now.worse_than(o) {
                                        lemma_score_order_transitive(before, now, o);
                                    }
                                },
                                None => {},
                            }
                        }
                    }
                }
            },
            None => {},
        }
    }
}

/// The score of a path is well formed, is the empty score or names the path,
/// and is not worse than the empty score.
pub proof fn lemma_score_of(nodes: Seq<VarNode>, path: Seq<usize>, target: Haplotype, params: KDParams)
    requires
        target.wf(),
    ensures
        score_of(nodes, path, target, params).wf(),
        score_of(nodes, path, target, params) == ScoreModel::empty() || score_of(
            nodes,
            path,
            target,
            params,
        ).path == path,
        !score_of(nodes, path, target, params).worse_than(ScoreModel::empty()),
{
    lemma_empty_score_wf();
    let decs = target.decompositions();
    assert forall|i: int| 0 <= i < decs.len() implies (#[trigger] decs[i]).weight.wf() by {
        if i > 0 {
            assert(target.parts@[i - 1].weight.wf());
        }
    }
    if path_fits(nodes, path) {
        lemma_best_match(
            path_size(nodes, path) as i64,
            path_profile(nodes, path),
            path,
            decs,
            params,
            decs.len() as int,
        );
    }
}

/// The similarities of the best score do not depend on the handles of the
/// path, only on its sums.
pub proof fn lemma_best_match_sums(
    size: i64,
    profile: Seq<u64>,
    path: Seq<usize>,
    other: Seq<usize>,
    decs: Seq<Decomposition>,
    params: KDParams,
    upto: int,
)
    ensures
        best_match(size, profile, path, decs, params, upto).sizesim == best_match(
            size,
            profile,
            other,
            decs,
            params,
            upto,
        ).sizesim,
        best_match(size, profile, path, decs, params, upto).seqsim == best_match(
            size,
            profile,
            other,
            decs,
            params,
            upto,
        ).seqsim,
    decreases upto,
{
    if upto > 0 {
        lemma_best_match_sums(size, profile, path, other, decs, params, upto - 1);
    }
}

/// The two sets of parameters have the same thresholds.
pub open spec fn same_thresholds(a: KDParams, b: KDParams) -> bool {
    a.sizesim == b.sizesim && a.seqsim == b.seqsim && a.minkfreq == b.minkfreq
}

/// The best score among decompositions depends on the parameters through the
/// thresholds alone.
pub proof fn lemma_best_match_thresholds(
    size: i64,
    profile: Seq<u64>,
    path: Seq<usize>,
    decs: Seq<Decomposition>,
    a: KDParams,
    b: KDParams,
    upto: int,
)
    requires
        same_thresholds(a, b),
    ensures
        best_match(size, profile, path, decs, a, upto) == best_match(
            size,
            profile,
            path,
            decs,
            b,
            upto,
        ),
    decreases upto,
{
    if upto > 0 {
        lemma_best_match_thresholds(size, profile, path, decs, a, b, upto - 1);
    }
}

/// The score of a path depends on the parameters through the thresholds alone.
pub proof fn lemma_score_of_thresholds(
    nodes: Seq<VarNode>,
    path: Seq<usize>,
    target: Haplotype,
    a: KDParams,
    b: KDParams,
)
    requires
        same_thresholds(a, b),
    ensures
        score_of(nodes, path, target, a) == score_of(nodes, path, target, b),
{
    lemma_best_match_thresholds(
        path_size(nodes, path) as i64,
        path_profile(nodes, path),
        path,
        target.decompositions(),
        a,
        b,
        target.decompositions().len() as int,
    );
}

/// The path has the size of the decomposition, and its profile has sequence
/// similarity 1 to that of the decomposition: the counts that are kept of the
/// two are in proportion.
pub open spec fn explains(
    nodes: Seq<VarNode>,
    path: Seq<usize>,
    d: Decomposition,
    min_frequency: u64,
) -> bool {
    &&& path_fits(nodes, path)
    &&& path_size(nodes, path) == d.size
    &&& sequence_similarity(path_profile(nodes, path), d.profile, min_frequency).is_one()
    &&& in_proportion(path_profile(nodes, path), d.profile, min_frequency)
}

/// A path with a perfect score explains a decomposition of the haplotype: it
/// has exactly the size of that decomposition, and a profile in line with it.
pub proof fn lemma_perfect_score_explains(
    nodes: Seq<VarNode>,
    path: Seq<usize>,
    target: Haplotype,
    params: KDParams,
)
    requires
        target.wf(),
        score_of(nodes, path, target, params).is_perfect(),
    ensures
        exists|j: int|
            0 <= j < target.decompositions().len() && explains(
                nodes,
                path,
                #[trigger] target.decompositions()[j],
                params.minkfreq,
            ),
{
    lemma_empty_score_wf();
    let score = score_of(nodes, path, target, params);
    let decs = target.decompositions();
    assert(!ScoreModel::empty().is_perfect()) by {
        let z = Similarity::spec_zero();
        assert(z.sq_num() == 0) by (nonlinear_arith)
            requires
                z.num == 0,
        ;
    }
    assert(path_fits(nodes, path));
    let size = path_size(nodes, path) as i64;
    let profile = path_profile(nodes, path);
    assert forall|i: int| 0 <= i < decs.len() implies (#[trigger] decs[i]).weight.wf() by {
        if i > 0 {
            assert(target.parts@[i - 1].weight.wf());
        }
    }
    lemma_best_match(size, profile, path, decs, params, decs.len() as int);
    let j = choose|j: int|
        0 <= j < decs.len() && #[trigger] is_score_at(size, profile, path, decs, params, j, score);
    lemma_size_similarity(magnitude(size), magnitude(decs[j].size));
    assert(magnitude(size) == magnitude(decs[j].size));
    assert(signum(size as int) == signum(decs[j].size as int));
    assert(size == decs[j].size);
    lemma_similarity_one_is_proportional(profile, decs[j].profile, params.minkfreq);
    assert(explains(nodes, path, decs[j], params.minkfreq));
}

} // verus!
