use vstd::prelude::*;

use crate::network::connection::{key_spec, Connection};
use crate::network::node::{Node, NodeId, NODE_ID_LIMIT};
use crate::population::specie::{share_lt, FitnessShare, SpecieId, FITNESS_LIMIT};
use crate::rng::RandomSource;
use crate::settings::NeatSettings;
use crate::SCALE;

verus! {

/// Identity of a genome: its slot in the population's genome list. Slots are
/// stable across generations; an offspring reuses its parent slot.
#[derive(Copy, Clone, Debug, Eq, PartialEq, Hash, Ord, PartialOrd, Structural)]
pub struct GenomeId(pub usize);

/// A layer label. Layer 0 holds the inputs, [`LAYER_MAX`] the outputs, and
/// structural mutation assigns intermediate labels strictly between the
/// layers of a split connection's endpoints.
#[derive(Copy, Clone, Debug, Eq, PartialEq, Hash, Ord, PartialOrd, Structural)]
pub struct LayerId(pub usize);

/// The reserved label of the output layer.
pub const LAYER_MAX: usize = 0x4000_0000;

/// Largest gene count of one genome. It keeps every product of the distance
/// formula inside 64 bits.
pub const GENES_LIMIT: usize = 1_000_000;

/// Largest absolute fixed-point connection weight (1000.0).
pub const WEIGHT_LIMIT: i64 = 1_000_000;

/// The fixed input/output interface shared by every genome of a population,
/// captured once at construction.
#[derive(Copy, Clone, Debug, Eq, PartialEq, Structural)]
pub struct TopologyShape {
    pub input_size: usize,
    pub output_size: usize,
    /// Whether the input layer carries one extra bias node.
    pub bias: bool,
}

impl TopologyShape {
    /// Number of nodes of the input layer.
    pub open spec fn in_count(self) -> int {
        self.input_size + (if self.bias {
            1int
        } else {
            0int
        })
    }

    /// A usable shape: at least one input and one output, and small enough
    /// that the seeded bipartite gene set and the node ids stay in range.
    pub open spec fn wf(self) -> bool {
        &&& 1 <= self.input_size
        &&& 1 <= self.output_size
        &&& self.in_count() * self.output_size <= GENES_LIMIT
        &&& self.input_size + self.output_size + 1 <= 0x1000_0000
    }
}

/// One candidate topology: nodes grouped by layer, a gene list, and the
/// fitness bookkeeping of the current generation.
#[derive(Clone, Debug)]
pub struct Genome {
    pub id: GenomeId,
    pub connections: Vec<Connection>,
    /// The distinct layer labels, one per node group: the input layer first,
    /// the output layer second, intermediate layers in order of creation.
    pub layers: Vec<LayerId>,
    /// The nodes, grouped by layer: `nodes[i]` holds exactly the nodes of
    /// layer `layers[i]`.
    pub nodes: Vec<Vec<Node>>,

    /// Raw fitness, written by the caller's evaluator between generations.
    pub fitness: u64,
    /// Fitness divided by the size of the genome's species, as an exact share.
    pub adjusted_fitness: FitnessShare,
    pub species: SpecieId,
}

/// The sequence of gene keys of a connection list, in list order.
pub open spec fn keys_of(cs: Seq<Connection>) -> Seq<int> {
    cs.map(|i: int, c: Connection| key_spec(c))
}

/// No two connections carry the same gene key.
pub open spec fn unique_keys(cs: Seq<Connection>) -> bool {
    forall|i: int, j: int|
        0 <= i < j < cs.len() ==> keys_of(cs)[i] != keys_of(cs)[j]
}

/// The gene keys of a connection list, as a set.
pub open spec fn dom_of(cs: Seq<Connection>) -> Set<int> {
    keys_of(cs).to_set()
}

/// The gene list as a map from key to gene (later entries win; with unique
/// keys the map is exact).
pub open spec fn conn_map(cs: Seq<Connection>) -> Map<int, Connection>
    decreases cs.len(),
{
    if cs.len() == 0 {
        Map::empty()
    } else {
        conn_map(cs.drop_last()).insert(key_spec(cs.last()), cs.last())
    }
}

/// The largest key of a key sequence, or -1 when it is empty.
pub open spec fn max_key(ks: Seq<int>) -> int
    decreases ks.len(),
{
    if ks.len() == 0 {
        -1
    } else if ks.last() > max_key(ks.drop_last()) {
        ks.last()
    } else {
        max_key(ks.drop_last())
    }
}

/// |x - y|.
pub open spec fn abs_diff(x: int, y: int) -> int {
    if x >= y {
        x - y
    } else {
        y - x
    }
}

/// A sum of `f` over a finite set of keys.
pub open spec fn key_sum(s: Set<int>, f: spec_fn(int) -> int) -> int
    decreases s.len(),
{
    if s.finite() && s.len() > 0 {
        let k = s.choose();
        f(k) + key_sum(s.remove(k), f)
    } else {
        0
    }
}

/// Genes present in both lists: the unit of alignment.
pub open spec fn matching_count(a: Seq<Connection>, b: Seq<Connection>) -> int {
    dom_of(a).intersect(dom_of(b)).len() as int
}

/// Keys of `s` beyond the bound `m` (genes beyond the other list's range).
pub open spec fn count_beyond(s: Set<int>, m: int) -> int {
    s.filter(|k: int| k > m).len() as int
}

/// Keys of `s` inside the other list's range but absent from it.
pub open spec fn count_within(s: Set<int>, other: Set<int>, m: int) -> int {
    s.filter(|k: int| !other.contains(k) && k <= m).len() as int
}

/// Excess genes between two lists, counted on both sides.
pub open spec fn excess_count(a: Seq<Connection>, b: Seq<Connection>) -> int {
    count_beyond(dom_of(a), max_key(keys_of(b))) + count_beyond(dom_of(b), max_key(keys_of(a)))
}

/// Disjoint genes between two lists, counted on both sides.
pub open spec fn disjoint_count(a: Seq<Connection>, b: Seq<Connection>) -> int {
    count_within(dom_of(a), dom_of(b), max_key(keys_of(b))) + count_within(
        dom_of(b),
        dom_of(a),
        max_key(keys_of(a)),
    )
}

/// The |weight difference| of the genes under one key of two lists.
pub open spec fn wdiff_at(a: Seq<Connection>, b: Seq<Connection>) -> spec_fn(int) -> int {
    |k: int| abs_diff(conn_map(a)[k].weight as int, conn_map(b)[k].weight as int)
}

/// Sum of |weight difference| over the matching genes.
pub open spec fn weight_diff(a: Seq<Connection>, b: Seq<Connection>) -> int {
    key_sum(dom_of(a).intersect(dom_of(b)), wdiff_at(a, b))
}

/// The structural normalizer `N`: the larger gene count, or 1 when both
/// lists are below the small-genome cutoff (and never below 1).
pub open spec fn sim_norm(la: int, lb: int, cutoff: int) -> int {
    if la < cutoff && lb < cutoff {
        1
    } else if la >= lb && la >= 1 {
        la
    } else if lb >= la && lb >= 1 {
        lb
    } else {
        1
    }
}

/// The compatibility distance of two gene lists, in fixed point:
/// `(ce*excess + cd*disjoint)/N + cw*(weight_diff/matching)`, with exact
/// integer divisions.
pub open spec fn sim_spec(a: Seq<Connection>, b: Seq<Connection>, st: NeatSettings) -> int {
    let n = sim_norm(a.len() as int, b.len() as int, st.normalized_gene_size as int);
    let m = matching_count(a, b);
    let structural = (st.similarity_coeficients.coeficient_excess * excess_count(a, b)
        + st.similarity_coeficients.coeficient_disjoint * disjoint_count(a, b)) / n;
    let weights = if m == 0 {
        0
    } else {
        (st.similarity_coeficients.coeficient_weight * weight_diff(a, b)) / (m * SCALE)
    };
    structural + weights
}

/// A sum over a finite set can be split off at any of its elements.
pub proof fn lemma_key_sum_decompose(s: Set<int>, f: spec_fn(int) -> int, k: int)
    requires
        s.finite(),
        s.contains(k),
    ensures
        key_sum(s, f) == f(k) + key_sum(s.remove(k), f),
    decreases s.len(),
{
    broadcast use vstd::set::group_set_axioms;

    let c = s.choose();
    if c == k {
    } else {
        lemma_key_sum_decompose(s.remove(c), f, k);
        lemma_key_sum_decompose(s.remove(k), f, c);
        assert(s.remove(c).remove(k) =~= s.remove(k).remove(c));
    }
}

/// Adding a fresh key adds its contribution to the sum.
pub proof fn lemma_key_sum_insert(s: Set<int>, f: spec_fn(int) -> int, k: int)
    requires
        s.finite(),
        !s.contains(k),
    ensures
        key_sum(s.insert(k), f) == key_sum(s, f) + f(k),
{
    broadcast use vstd::set::group_set_axioms;

    lemma_key_sum_decompose(s.insert(k), f, k);
    assert(s.insert(k).remove(k) =~= s);
}

/// Two functions equal on the set give equal sums.
pub proof fn lemma_key_sum_congruence(s: Set<int>, f: spec_fn(int) -> int, g: spec_fn(int) -> int)
    requires
        s.finite(),
        forall|k: int| s.contains(k) ==> #[trigger] f(k) == g(k),
    ensures
        key_sum(s, f) == key_sum(s, g),
    decreases s.len(),
{
    broadcast use vstd::set::group_set_axioms;

    if s.len() > 0 {
        let c = s.choose();
        lemma_key_sum_congruence(s.remove(c), f, g);
        lemma_key_sum_decompose(s, f, c);
        lemma_key_sum_decompose(s, g, c);
    }
}

/// A sum of zeros is zero.
pub proof fn lemma_key_sum_zero(s: Set<int>, f: spec_fn(int) -> int)
    requires
        s.finite(),
        forall|k: int| s.contains(k) ==> #[trigger] f(k) == 0,
    ensures
        key_sum(s, f) == 0,
    decreases s.len(),
{
    broadcast use vstd::set::group_set_axioms;

    if s.len() > 0 {
        let c = s.choose();
        lemma_key_sum_zero(s.remove(c), f);
        lemma_key_sum_decompose(s, f, c);
    }
}

/// The key map binds exactly the keys of the list.
pub proof fn lemma_conn_map_dom(cs: Seq<Connection>)
    ensures
        forall|k: int| #[trigger]
            conn_map(cs).dom().contains(k) <==> keys_of(cs).contains(k),
        conn_map(cs).dom().finite(),
    decreases cs.len(),
{
    broadcast use vstd::set::group_set_axioms;

    if cs.len() == 0 {
        assert(keys_of(cs).len() == 0);
    } else {
        lemma_conn_map_dom(cs.drop_last());
        assert forall|k: int| #[trigger] conn_map(cs).dom().contains(k) implies keys_of(
            cs,
        ).contains(k) by {
            if k == key_spec(cs.last()) {
                assert(keys_of(cs)[cs.len() - 1] == k);
            } else {
                let i = choose|i: int|
                    0 <= i < keys_of(cs.drop_last()).len() && keys_of(cs.drop_last())[i] == k;
                assert(keys_of(cs)[i] == k);
            }
        }
        assert forall|k: int| keys_of(cs).contains(k) implies #[trigger] conn_map(
            cs,
        ).dom().contains(k) by {
            let i = choose|i: int| 0 <= i < keys_of(cs).len() && keys_of(cs)[i] == k;
            if i < cs.len() - 1 {
                assert(keys_of(cs.drop_last())[i] == k);
            }
        }
    }
}

/// With unique keys, the key map returns each gene of the list.
pub proof fn lemma_conn_map_index(cs: Seq<Connection>, i: int)
    requires
        unique_keys(cs),
        0 <= i < cs.len(),
    ensures
        conn_map(cs).dom().contains(key_spec(cs[i])),
        conn_map(cs)[key_spec(cs[i])] == cs[i],
    decreases cs.len(),
{
    broadcast use vstd::set::group_set_axioms;

    lemma_conn_map_dom(cs);
    if i == cs.len() - 1 {
    } else {
        assert forall|p: int, q: int|
            0 <= p < q < cs.drop_last().len() implies keys_of(cs.drop_last())[p] != keys_of(
            cs.drop_last(),
        )[q] by {
            assert(keys_of(cs.drop_last())[p] == key_spec(cs[p]));
            assert(keys_of(cs.drop_last())[q] == key_spec(cs[q]));
            assert(keys_of(cs)[p] == key_spec(cs[p]));
            assert(keys_of(cs)[q] == key_spec(cs[q]));
        }
        lemma_conn_map_index(cs.drop_last(), i);
        assert(keys_of(cs)[i] != keys_of(cs)[cs.len() - 1]);
        assert(cs.drop_last()[i] == cs[i]);
        assert(key_spec(cs[i]) != key_spec(cs.last()));
    }
}

/// Walking one more gene extends the prefix key set by that gene's key.
pub proof fn lemma_dom_take_succ(cs: Seq<Connection>, i: int)
    requires
        0 <= i < cs.len(),
    ensures
        dom_of(cs.take(i + 1)) == dom_of(cs.take(i)).insert(key_spec(cs[i])),
        unique_keys(cs) ==> !dom_of(cs.take(i)).contains(key_spec(cs[i])),
{
    broadcast use vstd::set::group_set_axioms;

    let k = key_spec(cs[i]);
    assert forall|x: int| dom_of(cs.take(i + 1)).contains(x) implies dom_of(
        cs.take(i),
    ).insert(k).contains(x) by {
        let j = choose|j: int|
            0 <= j < keys_of(cs.take(i + 1)).len() && #[trigger] keys_of(cs.take(i + 1))[j] == x;
        if j < i {
            assert(keys_of(cs.take(i))[j] == x);
        }
    }
    assert forall|x: int| dom_of(cs.take(i)).insert(k).contains(x) implies dom_of(
        cs.take(i + 1),
    ).contains(x) by {
        if x == k {
            assert(keys_of(cs.take(i + 1))[i] == x);
        } else {
            let j = choose|j: int|
                0 <= j < keys_of(cs.take(i)).len() && #[trigger] keys_of(cs.take(i))[j] == x;
            assert(keys_of(cs.take(i + 1))[j] == x);
        }
    }
    assert(dom_of(cs.take(i + 1)) =~= dom_of(cs.take(i)).insert(k));
    if unique_keys(cs) {
        if dom_of(cs.take(i)).contains(k) {
            let j = choose|j: int|
                0 <= j < keys_of(cs.take(i)).len() && #[trigger] keys_of(cs.take(i))[j] == k;
            assert(keys_of(cs)[j] == k);
            assert(keys_of(cs)[i] == k);
            assert(false);
        }
    }
}

/// The key sets of a full walk and of the whole list agree.
pub proof fn lemma_dom_take_all(cs: Seq<Connection>)
    ensures
        cs.take(cs.len() as int) == cs,
{
    assert(cs.take(cs.len() as int) =~= cs);
}

/// A genome is at distance zero from itself: with itself it has no excess
/// and no disjoint genes, and the weight differences of the matching genes
/// are all zero.
pub proof fn lemma_similarity_self(a: Seq<Connection>, st: NeatSettings)
    ensures
        sim_spec(a, a, st) == 0,
{
    broadcast use vstd::set::group_set_axioms;
    broadcast use vstd::seq_lib::seq_to_set_is_finite;

    let mk = max_key(keys_of(a));
    assert forall|x: int| dom_of(a).contains(x) implies !(x > mk) by {
        let j = choose|j: int| 0 <= j < keys_of(a).len() && #[trigger] keys_of(a)[j] == x;
        lemma_max_key_ge(keys_of(a), j);
    }
    assert(dom_of(a).filter(|x: int| x > mk) =~= Set::<int>::empty());
    assert(dom_of(a).filter(|x: int| !dom_of(a).contains(x) && x <= mk) =~= Set::<int>::empty());
    assert forall|k: int| dom_of(a).intersect(dom_of(a)).contains(k) implies #[trigger] wdiff_at(
        a,
        a,
    )(k) == 0 by {}
    lemma_key_sum_zero(dom_of(a).intersect(dom_of(a)), wdiff_at(a, a));
    let n = sim_norm(a.len() as int, a.len() as int, st.normalized_gene_size as int);
    let m = matching_count(a, a);
    assert(n >= 1);
    assert(0int / n == 0) by (nonlinear_arith)
        requires
            n >= 1,
    ;
    if m != 0 {
        assert(m * SCALE >= 1) by (nonlinear_arith)
            requires
                m >= 1,
        ;
        assert(0int / (m * SCALE) == 0) by (nonlinear_arith)
            requires
                m * SCALE >= 1,
        ;
    }
    assert(excess_count(a, a) == 0);
    assert(disjoint_count(a, a) == 0);
    assert(weight_diff(a, a) == 0);
}

/// The compatibility distance is symmetric: every term of the formula reads
/// the two gene lists interchangeably.
pub proof fn lemma_similarity_symmetric(a: Seq<Connection>, b: Seq<Connection>, st: NeatSettings)
    ensures
        sim_spec(a, b, st) == sim_spec(b, a, st),
{
    broadcast use vstd::set::group_set_axioms;
    broadcast use vstd::seq_lib::seq_to_set_is_finite;

    assert(dom_of(a).intersect(dom_of(b)) =~= dom_of(b).intersect(dom_of(a)));
    assert forall|k: int|
        dom_of(a).intersect(dom_of(b)).contains(k) implies #[trigger] wdiff_at(a, b)(k)
        == wdiff_at(b, a)(k) by {}
    lemma_key_sum_congruence(dom_of(a).intersect(dom_of(b)), wdiff_at(a, b), wdiff_at(b, a));
}

/// The freshly seeded bipartite genome is well-formed: gene `t` joins input
/// node `t / out` (layer 0) to output node `in_b + t % out` (the output
/// layer), so keys are unique and the graph is feed-forward.
proof fn lemma_seeded_genome_wf(r: Genome, shape: TopologyShape, in_b: int, out: int)
    requires
        shape.wf(),
        in_b == shape.in_count(),
        out == shape.output_size,
        r.layers@.len() == 2,
        r.layers@[0] == LayerId(0),
        r.layers@[1] == (LayerId { 0: LAYER_MAX }),
        r.nodes@.len() == 2,
        r.nodes@[0]@.len() == in_b,
        forall|k: int|
            0 <= k < in_b ==> (#[trigger] r.nodes@[0]@[k]) == (Node {
                id: NodeId(k as usize),
                value: 0,
                layer: LayerId(0),
            }),
        r.nodes@[1]@.len() == out,
        forall|k: int|
            0 <= k < out ==> (#[trigger] r.nodes@[1]@[k]) == (Node {
                id: NodeId((in_b + k) as usize),
                value: 0,
                layer: LayerId { 0: LAYER_MAX },
            }),
        r.connections@.len() == in_b * out,
        forall|u: int|
            0 <= u < r.connections@.len() ==> {
                let c = #[trigger] r.connections@[u];
                &&& c.from.0 == u / out
                &&& c.to.0 == in_b + u % out
                &&& c.enabled
                &&& 0 <= c.weight < SCALE
            },
        r.fitness <= FITNESS_LIMIT,
        r.adjusted_fitness.wf(),
    ensures
        r.wf(),
        r.matches_shape(shape),
{
    let len = r.connections@.len() as int;
    assert(len <= GENES_LIMIT);
    assert forall|u: int| 0 <= u < len implies {
        &&& 0 <= #[trigger] (u / out) < in_b
        &&& 0 <= u % out < out
    } by {
        assert(0 <= u / out && u / out < in_b && 0 <= u % out < out) by (nonlinear_arith)
            requires
                0 <= u,
                u < in_b * out,
                out >= 1,
                in_b >= 1,
        ;
    }
    assert forall|i: int, j: int| 0 <= i < j < len implies keys_of(r.connections@)[i] != keys_of(
        r.connections@,
    )[j] by {
        let ci = r.connections@[i];
        let cj = r.connections@[j];
        assert(keys_of(r.connections@)[i] == key_spec(ci));
        assert(keys_of(r.connections@)[j] == key_spec(cj));
        if key_spec(ci) == key_spec(cj) {
            crate::network::connection::lemma_key_injective(ci, cj);
            assert(i / out == j / out && i % out == j % out);
            vstd::arithmetic::div_mod::lemma_fundamental_div_mod(i, out);
            vstd::arithmetic::div_mod::lemma_fundamental_div_mod(j, out);
            assert(false);
        }
    }
    assert forall|ci: int| 0 <= ci < len implies {
        let c = #[trigger] r.connections@[ci];
        &&& r.has_node(c.from.0 as int)
        &&& r.has_node(c.to.0 as int)
        &&& r.node_layer(c.from.0 as int) < r.node_layer(c.to.0 as int)
        &&& -WEIGHT_LIMIT <= c.weight <= WEIGHT_LIMIT
    } by {
        let c = r.connections@[ci];
        let f = c.from.0 as int;
        let t = c.to.0 as int;
        assert(r.nodes@[0]@[f].id.0 == f);
        assert(r.has_node(f));
        assert(r.nodes@[1]@[t - in_b].id.0 == t);
        assert(r.has_node(t));
        let (li, k): (int, int) = choose|li: int, k: int|
            0 <= li < r.nodes@.len() && 0 <= k < r.nodes@[li]@.len() && r.nodes@[li]@[k].id.0 == f;
        assert(li == 0);
        assert(r.node_layer(f) == 0);
        let (lj, m): (int, int) = choose|lj: int, m: int|
            0 <= lj < r.nodes@.len() && 0 <= m < r.nodes@[lj]@.len() && r.nodes@[lj]@[m].id.0 == t;
        assert(lj == 1);
        assert(r.node_layer(t) == LAYER_MAX);
    }
}

/// Two genomes with the same node groups agree on node existence and layers.
pub proof fn lemma_same_nodes_same_layers(r: Genome, f: Genome)
    requires
        f.wf_nodes(),
        r.layers@ == f.layers@,
        r.nodes@.len() == f.nodes@.len(),
        forall|li: int| 0 <= li < f.nodes@.len() ==> (#[trigger] r.nodes@[li])@ == f.nodes@[li]@,
    ensures
        r.wf_nodes(),
        forall|x: int| #[trigger] r.has_node(x) <==> f.has_node(x),
        forall|x: int| f.has_node(x) ==> #[trigger] r.node_layer(x) == f.node_layer(x),
{
    assert forall|x: int| #[trigger] r.has_node(x) <==> f.has_node(x) by {
        if r.has_node(x) {
            let (li, k): (int, int) = choose|li: int, k: int|
                0 <= li < r.nodes@.len() && 0 <= k < r.nodes@[li]@.len() && r.nodes@[li]@[k].id.0
                    == x;
            assert(r.nodes@[li]@ == f.nodes@[li]@);
            assert(f.nodes@[li]@[k].id.0 == x);
        }
        if f.has_node(x) {
            let (li, k): (int, int) = choose|li: int, k: int|
                0 <= li < f.nodes@.len() && 0 <= k < f.nodes@[li]@.len() && f.nodes@[li]@[k].id.0
                    == x;
            assert(r.nodes@[li]@ == f.nodes@[li]@);
            assert(r.nodes@[li]@[k].id.0 == x);
        }
    }
    assert forall|x: int| f.has_node(x) implies #[trigger] r.node_layer(x) == f.node_layer(x) by {
        let (lj, m): (int, int) = choose|lj: int, m: int|
            0 <= lj < f.nodes@.len() && 0 <= m < f.nodes@[lj]@.len() && f.nodes@[lj]@[m].id.0 == x;
        assert(r.nodes@[lj]@ == f.nodes@[lj]@);
        assert(r.nodes@[lj]@[m].id.0 == x);
        assert(r.has_node(x));
        let (li, k): (int, int) = choose|li: int, k: int|
            0 <= li < r.nodes@.len() && 0 <= k < r.nodes@[li]@.len() && r.nodes@[li]@[k].id.0 == x;
        assert(r.nodes@[li]@ == f.nodes@[li]@);
        assert(f.nodes@[li]@[k].id.0 == x);
        assert(li == lj && k == m);
        assert(r.nodes@[li]@[k].layer == f.nodes@[li]@[k].layer);
    }
}

/// Two gene lists with equal keys and equal weights, gene by gene, are at
/// distance zero: same alignment, no excess, no disjoint, no weight spread.
/// (Enabled flags play no part in the distance.)
pub proof fn lemma_similarity_of_matching_lists(
    a: Seq<Connection>,
    b: Seq<Connection>,
    st: NeatSettings,
)
    requires
        a.len() == b.len(),
        unique_keys(a),
        forall|i: int|
            0 <= i < a.len() ==> key_spec(#[trigger] b[i]) == key_spec(a[i]) && b[i].weight
                == a[i].weight,
    ensures
        sim_spec(a, b, st) == 0,
{
    broadcast use vstd::set::group_set_axioms;
    broadcast use vstd::seq_lib::seq_to_set_is_finite;

    assert(keys_of(a) =~= keys_of(b));
    assert(unique_keys(b)) by {
        assert(forall|i: int| 0 <= i < a.len() ==> keys_of(b)[i] == keys_of(a)[i]);
    }
    let mk = max_key(keys_of(a));
    assert forall|x: int| dom_of(a).contains(x) implies !(x > mk) by {
        let j = choose|j: int| 0 <= j < keys_of(a).len() && #[trigger] keys_of(a)[j] == x;
        lemma_max_key_ge(keys_of(a), j);
    }
    assert(dom_of(b) == dom_of(a));
    assert(dom_of(a).filter(|x: int| x > mk) =~= Set::<int>::empty());
    assert(dom_of(a).filter(|x: int| !dom_of(b).contains(x) && x <= mk) =~= Set::<int>::empty());
    assert(dom_of(b).filter(|x: int| !dom_of(a).contains(x) && x <= mk) =~= Set::<int>::empty());
    assert forall|k: int| dom_of(a).intersect(dom_of(b)).contains(k) implies #[trigger] wdiff_at(
        a,
        b,
    )(k) == 0 by {
        let j = choose|j: int| 0 <= j < keys_of(a).len() && #[trigger] keys_of(a)[j] == k;
        lemma_conn_map_index(a, j);
        lemma_conn_map_index(b, j);
        assert(key_spec(b[j]) == k);
    }
    lemma_key_sum_zero(dom_of(a).intersect(dom_of(b)), wdiff_at(a, b));
    let n = sim_norm(a.len() as int, b.len() as int, st.normalized_gene_size as int);
    let m = matching_count(a, b);
    assert(0int / n == 0) by (nonlinear_arith)
        requires
            n >= 1,
    ;
    if m != 0 {
        assert(m * SCALE >= 1) by (nonlinear_arith)
            requires
                m >= 1,
        ;
        assert(0int / (m * SCALE) == 0) by (nonlinear_arith)
            requires
                m * SCALE >= 1,
        ;
    }
    assert(excess_count(a, b) == 0);
    assert(disjoint_count(a, b) == 0);
    assert(weight_diff(a, b) == 0);
}

/// What crossover promises of its gene list: the offspring carries exactly
/// the fitter parent's gene structure, each gene's weight taken from one of
/// the two parents' aligned genes, and a gene enabled in both parents stays
/// enabled.
pub open spec fn crossover_genes(r: Seq<Connection>, f: Seq<Connection>, o: Seq<Connection>) -> bool {
    &&& r.len() == f.len()
    &&& forall|i: int|
        0 <= i < f.len() ==> {
            let c = #[trigger] r[i];
            &&& c.from == f[i].from
            &&& c.to == f[i].to
            &&& (c.weight == f[i].weight || (dom_of(o).contains(key_spec(f[i])) && c.weight
                == conn_map(o)[key_spec(f[i])].weight))
            &&& (f[i].enabled && (dom_of(o).contains(key_spec(f[i])) ==> conn_map(
                o,
            )[key_spec(f[i])].enabled) ==> c.enabled)
            &&& (!dom_of(o).contains(key_spec(f[i])) ==> c == f[i])
        }
}

/// An element-wise copy of a layer list.
fn copy_layers(v: &Vec<LayerId>) -> (r: Vec<LayerId>)
    ensures
        r@ == v@,
{
    let mut r: Vec<LayerId> = Vec::new();
    let mut i: usize = 0;
    while i < v.len()
        invariant
            i <= v@.len(),
            r@.len() == i,
            forall|j: int| 0 <= j < i ==> r@[j] == v@[j],
        decreases v@.len() - i,
    {
        r.push(v[i]);
        i += 1;
    }
    proof {
        assert(r@ =~= v@);
    }
    r
}

/// An element-wise copy of one node group.
fn copy_group(v: &Vec<Node>) -> (r: Vec<Node>)
    ensures
        r@ == v@,
{
    let mut r: Vec<Node> = Vec::new();
    let mut i: usize = 0;
    while i < v.len()
        invariant
            i <= v@.len(),
            r@.len() == i,
            forall|j: int| 0 <= j < i ==> r@[j] == v@[j],
        decreases v@.len() - i,
    {
        r.push(v[i]);
        i += 1;
    }
    proof {
        assert(r@ =~= v@);
    }
    r
}

/// An element-wise copy of the grouped node table.
fn copy_node_groups(v: &Vec<Vec<Node>>) -> (r: Vec<Vec<Node>>)
    ensures
        r@.len() == v@.len(),
        forall|i: int| 0 <= i < v@.len() ==> (#[trigger] r@[i])@ == v@[i]@,
{
    let mut r: Vec<Vec<Node>> = Vec::new();
    let mut i: usize = 0;
    while i < v.len()
        invariant
            i <= v@.len(),
            r@.len() == i,
            forall|j: int| 0 <= j < i ==> (#[trigger] r@[j])@ == v@[j]@,
        decreases v@.len() - i,
    {
        let g = copy_group(&v[i]);
        r.push(g);
        i += 1;
    }
    r
}

/// A group holding one node.
fn node_singleton(node: Node) -> (r: Vec<Node>)
    ensures
        r@.len() == 1,
        r@[0] == node,
{
    let mut r: Vec<Node> = Vec::new();
    r.push(node);
    r
}

/// Placing one fresh node on an intermediate layer — into an existing group
/// `p`, or as a newly appended group — keeps the node table well-formed and
/// does not move or relabel any existing node.
#[verifier::rlimit(60)]
proof fn lemma_node_added(g0: Genome, g1: Genome, p: int, pos: int, node: Node, mid: int)
    requires
        g0.wf_nodes(),
        node.layer.0 == mid,
        (node.id.0 as u64) < NODE_ID_LIMIT,
        0 < mid < LAYER_MAX,
        forall|li: int, k: int|
            0 <= li < g0.nodes@.len() && 0 <= k < g0.nodes@[li]@.len()
                ==> (#[trigger] g0.nodes@[li]@[k]).id != node.id,
        g1.layers@.len() == g1.nodes@.len(),
        g0.nodes@.len() <= g1.nodes@.len() <= g0.nodes@.len() + 1,
        0 <= p < g1.nodes@.len(),
        g1.layers@[p].0 == mid,
        forall|j: int|
            0 <= j < g0.nodes@.len() && j != p ==> (#[trigger] g1.nodes@[j]) == g0.nodes@[j]
                && g1.layers@[j] == g0.layers@[j],
        p < g0.nodes@.len() ==> {
            &&& g1.nodes@.len() == g0.nodes@.len()
            &&& g1.layers@[p] == g0.layers@[p]
            &&& g0.layers@[p].0 == mid
            &&& g1.nodes@[p]@ == g0.nodes@[p]@.push(node)
            &&& pos == g0.nodes@[p]@.len()
        },
        p >= g0.nodes@.len() ==> {
            &&& g1.nodes@.len() == g0.nodes@.len() + 1
            &&& g1.nodes@[p]@.len() == 1
            &&& g1.nodes@[p]@[0] == node
            &&& pos == 0
            &&& forall|j: int| 0 <= j < g0.layers@.len() ==> (#[trigger] g0.layers@[j]).0 != mid
        },
    ensures
        g1.wf_nodes(),
        g1.has_node(node.id.0 as int),
        g1.node_layer(node.id.0 as int) == mid,
        forall|x: int| #[trigger] g0.has_node(x) ==> g1.has_node(x),
        forall|x: int| #[trigger] g0.has_node(x) ==> g1.node_layer(x) == g0.node_layer(x),
{
    assert(p != 0 && p != 1) by {
        if p < g0.nodes@.len() {
            assert(g0.layers@[p].0 == mid);
        }
    }
    assert(g1.layers@[0] == g0.layers@[0]) by {
        assert(g1.nodes@[0] == g0.nodes@[0]);
    }
    assert(g1.layers@[1] == g0.layers@[1]) by {
        assert(g1.nodes@[1] == g0.nodes@[1]);
    }
    assert(g1.wf_nodes()) by {
        assert forall|i: int, j: int| 0 <= i < j < g1.layers@.len() implies g1.layers@[i].0
            != g1.layers@[j].0 by {
            if i != p && i < g0.nodes@.len() {
                assert(g1.nodes@[i] == g0.nodes@[i]);
            }
            if j != p && j < g0.nodes@.len() {
                assert(g1.nodes@[j] == g0.nodes@[j]);
            }
        }
        assert forall|i: int| 0 <= i < g1.layers@.len() implies (#[trigger] g1.layers@[i]).0
            <= LAYER_MAX by {
            if i != p && i < g0.nodes@.len() {
                assert(g1.nodes@[i] == g0.nodes@[i]);
            }
        }
        assert forall|li: int, k: int|
            0 <= li < g1.nodes@.len() && 0 <= k < g1.nodes@[li]@.len() implies (
        #[trigger] g1.nodes@[li]@[k]).layer == g1.layers@[li] && ((g1.nodes@[li]@[k].id.0 as u64)
            < NODE_ID_LIMIT) by {
            if li == p {
                if p < g0.nodes@.len() && k < g0.nodes@[p]@.len() {
                    assert(g1.nodes@[li]@[k] == g0.nodes@[p]@[k]);
                } else {
                    assert(g1.nodes@[li]@[k] == node);
                }
            }
        }
        assert forall|li: int, k: int, lj: int, m: int|
            0 <= li < g1.nodes@.len() && 0 <= k < g1.nodes@[li]@.len() && 0 <= lj
                < g1.nodes@.len() && 0 <= m < g1.nodes@[lj]@.len() && (li != lj || k != m) implies (
        #[trigger] g1.nodes@[li]@[k]).id != (#[trigger] g1.nodes@[lj]@[m]).id by {
            let a_new = li == p && (p >= g0.nodes@.len() || k >= g0.nodes@[p]@.len());
            let b_new = lj == p && (p >= g0.nodes@.len() || m >= g0.nodes@[lj]@.len());
            if a_new && b_new {
                assert(k == pos && m == pos);
                assert(false);
            }
        }
    }
    assert(g1.nodes@[p]@[pos] == node);
    g1.lemma_node_layer_at(p, pos);
    assert forall|x: int| #[trigger] g0.has_node(x) implies g1.has_node(x) && g1.node_layer(x)
        == g0.node_layer(x) by {
        let (li, k): (int, int) = choose|li: int, k: int|
            0 <= li < g0.nodes@.len() && 0 <= k < g0.nodes@[li]@.len() && g0.nodes@[li]@[k].id.0
                == x;
        assert(g1.nodes@[li]@[k] == g0.nodes@[li]@[k]) by {
            if li == p {
                assert(g1.nodes@[p]@ == g0.nodes@[p]@.push(node));
            } else {
                assert(g1.nodes@[li] == g0.nodes@[li]);
            }
        }
        g1.lemma_node_layer_at(li, k);
        g0.lemma_node_layer_at(li, k);
        assert(g1.layers@[li].0 == g0.layers@[li].0) by {
            if li == p {
                assert(g1.layers@[p] == g0.layers@[p]);
            } else {
                assert(g1.nodes@[li] == g0.nodes@[li]);
            }
        }
        assert(g1.has_node(x));
        assert(g1.node_layer(x) == g0.node_layer(x));
    }
}

/// Changing only a genome's bookkeeping fields (fitness, adjusted fitness,
/// species tag) keeps it well-formed: the graph is untouched.
pub proof fn lemma_bookkeeping_update_wf(a: Genome, b: Genome)
    requires
        b.wf(),
        a.connections == b.connections,
        a.layers == b.layers,
        a.nodes == b.nodes,
        a.fitness <= FITNESS_LIMIT,
        a.adjusted_fitness.wf(),
    ensures
        a.wf(),
        forall|x: int| #[trigger] a.has_node(x) <==> b.has_node(x),
        forall|shape: TopologyShape| #[trigger] b.matches_shape(shape) ==> a.matches_shape(shape),
{
    lemma_same_nodes_same_layers(a, b);
    assert forall|ci: int| 0 <= ci < a.connections@.len() implies {
        let c = #[trigger] a.connections@[ci];
        &&& a.has_node(c.from.0 as int)
        &&& a.has_node(c.to.0 as int)
        &&& a.node_layer(c.from.0 as int) < a.node_layer(c.to.0 as int)
        &&& -WEIGHT_LIMIT <= c.weight <= WEIGHT_LIMIT
    } by {
        assert(b.has_node(b.connections@[ci].from.0 as int));
        assert(b.has_node(b.connections@[ci].to.0 as int));
    }
}

/// Installing the two legs of a split gene — the old gene disabled in
/// place, one leg from its source to the fresh node at weight 1.0, one leg
/// from the fresh node to its target at the old weight — keeps the gene
/// list well-formed: the fresh node id keeps the new keys unique, and both
/// legs respect the layer order around the fresh intermediate layer.
#[verifier::rlimit(100)]
#[verifier::spinoff_prover]
proof fn lemma_split_install_wf(
    g0: Genome,
    g1: Genome,
    fin: Genome,
    pick: int,
    c: Connection,
    nid: usize,
    lf: int,
    lt: int,
    mid: int,
    maxid: u64,
)
    requires
        g0.wf(),
        g1.wf_nodes(),
        fin.nodes == g1.nodes,
        fin.layers == g1.layers,
        forall|x: int|
            #[trigger] g0.has_node(x) ==> g1.has_node(x) && g1.node_layer(x) == g0.node_layer(x),
        g1.has_node(nid as int),
        g1.node_layer(nid as int) == mid,
        (nid as u64) < NODE_ID_LIMIT,
        maxid < nid as u64,
        forall|li: int, k: int|
            0 <= li < g0.nodes@.len() && 0 <= k < g0.nodes@[li]@.len()
                ==> ((#[trigger] g0.nodes@[li]@[k]).id.0 as u64) <= maxid,
        0 <= pick < g0.connections@.len(),
        c == g0.connections@[pick],
        g0.node_layer(c.from.0 as int) == lf,
        g0.node_layer(c.to.0 as int) == lt,
        lf < mid < lt,
        g0.connections@.len() + 2 <= GENES_LIMIT,
        fin.connections@ == g0.connections@.update(
            pick,
            Connection { enabled: false, ..c },
        ).push(Connection { from: c.from, to: NodeId(nid), weight: 1000, enabled: true }).push(
            Connection { from: NodeId(nid), to: c.to, weight: c.weight, enabled: true },
        ),
        fin.fitness <= FITNESS_LIMIT,
        fin.adjusted_fitness.wf(),
    ensures
        fin.wf(),
{
    lemma_same_nodes_same_layers(fin, g1);
    let cs = fin.connections@;
    let ocs = g0.connections@;
    assert forall|u: int| 0 <= u < ocs.len() implies ((#[trigger] ocs[u]).from.0 as u64) <= maxid
        && (ocs[u].to.0 as u64) <= maxid by {
        let oc = ocs[u];
        let (li, k): (int, int) = choose|li: int, k: int|
            0 <= li < g0.nodes@.len() && 0 <= k < g0.nodes@[li]@.len() && g0.nodes@[li]@[k].id.0
                == oc.from.0 as int;
        let (lj, m): (int, int) = choose|lj: int, m: int|
            0 <= lj < g0.nodes@.len() && 0 <= m < g0.nodes@[lj]@.len() && g0.nodes@[lj]@[m].id.0
                == oc.to.0 as int;
    }
    assert forall|u: int| 0 <= u < ocs.len() implies key_spec(#[trigger] cs[u]) == key_spec(
        ocs[u],
    ) by {
        if u != pick {
            assert(cs[u] == ocs[u]);
        }
    }
    assert forall|pi: int, q: int| 0 <= pi < q < cs.len() implies keys_of(cs)[pi] != keys_of(
        cs,
    )[q] by {
        assert(keys_of(cs)[pi] == key_spec(cs[pi]));
        assert(keys_of(cs)[q] == key_spec(cs[q]));
        if q < ocs.len() {
            assert(keys_of(ocs)[pi] == key_spec(ocs[pi]));
            assert(keys_of(ocs)[q] == key_spec(ocs[q]));
        } else {
            if key_spec(cs[pi]) == key_spec(cs[q]) {
                crate::network::connection::lemma_key_injective(cs[pi], cs[q]);
                assert(false);
            }
        }
    }
    assert forall|u: int| 0 <= u < cs.len() implies {
        let cc = #[trigger] cs[u];
        &&& fin.has_node(cc.from.0 as int)
        &&& fin.has_node(cc.to.0 as int)
        &&& fin.node_layer(cc.from.0 as int) < fin.node_layer(cc.to.0 as int)
        &&& -WEIGHT_LIMIT <= cc.weight <= WEIGHT_LIMIT
    } by {
        if u < ocs.len() {
            assert(g0.has_node(ocs[u].from.0 as int));
            assert(g0.has_node(ocs[u].to.0 as int));
            assert(cs[u].from == ocs[u].from && cs[u].to == ocs[u].to);
            assert(g1.has_node(ocs[u].from.0 as int));
            assert(g1.has_node(ocs[u].to.0 as int));
            assert(g1.node_layer(ocs[u].from.0 as int) == g0.node_layer(ocs[u].from.0 as int));
            assert(g1.node_layer(ocs[u].to.0 as int) == g0.node_layer(ocs[u].to.0 as int));
            assert(cs[u].weight == ocs[u].weight || cs[u] == ocs[u]);
        } else {
            assert(g0.has_node(c.from.0 as int) && g0.has_node(c.to.0 as int));
            assert(g1.has_node(c.from.0 as int) && g1.has_node(c.to.0 as int));
            assert(g1.node_layer(c.from.0 as int) == lf);
            assert(g1.node_layer(c.to.0 as int) == lt);
            assert(g1.has_node(nid as int));
            assert(g1.node_layer(nid as int) == mid);
        }
    }
}

/// Crossover of a genome with itself reproduces an equivalent gene set: the
/// offspring carries the same keys and weights gene by gene (only enabled
/// flags may differ), so its distance to the parent is zero — no spurious
/// excess or disjoint genes arise.
pub proof fn lemma_crossover_self_equivalent(g: Genome, r: Genome, st: NeatSettings)
    requires
        g.wf(),
        crossover_genes(r.connections@, g.connections@, g.connections@),
    ensures
        r.connections@.len() == g.connections@.len(),
        forall|i: int|
            0 <= i < g.connections@.len() ==> key_spec(#[trigger] r.connections@[i]) == key_spec(
                g.connections@[i],
            ) && r.connections@[i].weight == g.connections@[i].weight,
        sim_spec(r.connections@, g.connections@, st) == 0,
{
    assert forall|i: int| 0 <= i < g.connections@.len() implies key_spec(
        #[trigger] r.connections@[i],
    ) == key_spec(g.connections@[i]) && r.connections@[i].weight == g.connections@[i].weight by {
        lemma_conn_map_index(g.connections@, i);
    }
    lemma_similarity_of_matching_lists(g.connections@, r.connections@, st);
    lemma_similarity_symmetric(g.connections@, r.connections@, st);
}

/// Every key of a list is bounded by its maximum key.
pub proof fn lemma_max_key_ge(ks: Seq<int>, i: int)
    requires
        0 <= i < ks.len(),
    ensures
        ks[i] <= max_key(ks),
    decreases ks.len(),
{
    if i < ks.len() - 1 {
        lemma_max_key_ge(ks.drop_last(), i);
    }
}

impl Genome {
    /// The genome holds a node with this identity.
    pub open spec fn has_node(self, id: int) -> bool {
        exists|li: int, k: int|
            0 <= li < self.nodes@.len() && 0 <= k < self.nodes@[li]@.len()
                && self.nodes@[li]@[k].id.0 == id
    }

    /// The layer label of the node with this identity (meaningful only when
    /// the node exists and node identities are unique).
    pub open spec fn node_layer(self, id: int) -> int {
        let (li, k): (int, int) = choose|li: int, k: int|
            0 <= li < self.nodes@.len() && 0 <= k < self.nodes@[li]@.len()
                && self.nodes@[li]@[k].id.0 == id;
        self.nodes@[li]@[k].layer.0 as int
    }

    /// Node groups line up with the layer list, layer labels are pairwise
    /// distinct, the first group is the input layer and the second the
    /// output layer, and every node records the layer of its own group.
    pub open spec fn wf_nodes(self) -> bool {
        &&& self.layers@.len() == self.nodes@.len()
        &&& self.layers@.len() >= 2
        &&& self.layers@[0].0 == 0
        &&& self.layers@[1].0 == LAYER_MAX
        &&& forall|i: int| 0 <= i < self.layers@.len() ==> (#[trigger] self.layers@[i]).0 <= LAYER_MAX
        &&& forall|i: int, j: int|
            0 <= i < j < self.layers@.len() ==> self.layers@[i].0 != self.layers@[j].0
        &&& forall|li: int, k: int|
            0 <= li < self.nodes@.len() && 0 <= k < self.nodes@[li]@.len()
                ==> (#[trigger] self.nodes@[li]@[k]).layer == self.layers@[li]
        &&& forall|li: int, k: int|
            0 <= li < self.nodes@.len() && 0 <= k < self.nodes@[li]@.len()
                ==> ((#[trigger] self.nodes@[li]@[k]).id.0 as u64) < NODE_ID_LIMIT
        &&& forall|li: int, k: int, lj: int, m: int|
            0 <= li < self.nodes@.len() && 0 <= k < self.nodes@[li]@.len() && 0 <= lj
                < self.nodes@.len() && 0 <= m < self.nodes@[lj]@.len() && (li != lj || k != m)
                ==> (#[trigger] self.nodes@[li]@[k]).id != (#[trigger] self.nodes@[lj]@[m]).id
    }

    /// Every gene joins two existing nodes of strictly increasing layers
    /// (feed-forward acyclicity), keys are unique, and weights are bounded.
    pub open spec fn wf_connections(self) -> bool {
        &&& self.connections@.len() <= GENES_LIMIT
        &&& unique_keys(self.connections@)
        &&& forall|ci: int|
            0 <= ci < self.connections@.len() ==> {
                let c = #[trigger] self.connections@[ci];
                &&& self.has_node(c.from.0 as int)
                &&& self.has_node(c.to.0 as int)
                &&& self.node_layer(c.from.0 as int) < self.node_layer(c.to.0 as int)
                &&& -WEIGHT_LIMIT <= c.weight <= WEIGHT_LIMIT
            }
    }

    /// The whole structural invariant of a genome.
    pub open spec fn wf(self) -> bool {
        &&& self.wf_nodes()
        &&& self.wf_connections()
        &&& self.fitness <= FITNESS_LIMIT
        &&& self.adjusted_fitness.wf()
    }

    /// The genome exposes the population's interface: the first node group
    /// is the input layer of the shape, the last one its output layer.
    pub open spec fn matches_shape(self, shape: TopologyShape) -> bool {
        &&& self.nodes@.len() >= 2
        &&& self.nodes@[0]@.len() == shape.in_count()
        &&& self.nodes@[1]@.len() == shape.output_size
    }

    /// The minimal random topology: one input layer (inputs plus optional
    /// bias), one output layer, and a fully connected bipartite gene set with
    /// uniform weights drawn from `[0, 1.0)`, all enabled. Gene `t` connects
    /// input node `t / output_size` to output node `t % output_size`.
    pub fn new_random(rng: &mut RandomSource, id: GenomeId, shape: TopologyShape) -> (r: Genome)
        requires
            shape.wf(),
        ensures
            r.wf(),
            r.matches_shape(shape),
            r.id == id,
            r.fitness == 0,
            r.adjusted_fitness == (FitnessShare { num: 0, den: 1 }),
            r.species == SpecieId(0),
            r.layers@.len() == 2,
            r.connections@.len() == shape.in_count() * shape.output_size,
            forall|t: int|
                0 <= t < r.connections@.len() ==> {
                    let c = #[trigger] r.connections@[t];
                    &&& c.from.0 == t / (shape.output_size as int)
                    &&& c.to.0 == shape.in_count() + t % (shape.output_size as int)
                    &&& c.enabled
                    &&& 0 <= c.weight < SCALE
                },
    {
        let in_b: usize = shape.input_size + if shape.bias {
            1
        } else {
            0
        };
        let out = shape.output_size;

        let mut group0: Vec<Node> = Vec::new();
        let mut i: usize = 0;
        while i < in_b
            invariant
                i <= in_b,
                group0@.len() == i,
                forall|k: int|
                    0 <= k < i ==> (#[trigger] group0@[k]) == (Node {
                        id: NodeId(k as usize),
                        value: 0,
                        layer: LayerId(0),
                    }),
            decreases in_b - i,
        {
            group0.push(Node { id: NodeId(i), value: 0, layer: LayerId(0) });
            i += 1;
        }

        let mut group1: Vec<Node> = Vec::new();
        let mut j: usize = 0;
        while j < out
            invariant
                j <= out,
                in_b + out <= 0x1000_0000,
                group1@.len() == j,
                forall|k: int|
                    0 <= k < j ==> (#[trigger] group1@[k]) == (Node {
                        id: NodeId((in_b + k) as usize),
                        value: 0,
                        layer: LayerId(LAYER_MAX),
                    }),
            decreases out - j,
        {
            group1.push(Node { id: NodeId(in_b + j), value: 0, layer: LayerId(LAYER_MAX) });
            j += 1;
        }

        let mut layers: Vec<LayerId> = Vec::new();
        layers.push(LayerId(0));
        layers.push(LayerId(LAYER_MAX));
        let mut nodes: Vec<Vec<Node>> = Vec::new();
        nodes.push(group0);
        nodes.push(group1);

        let total = in_b * out;
        proof {
            assert(total == shape.in_count() * shape.output_size);
        }
        let mut connections: Vec<Connection> = Vec::new();
        let mut t: usize = 0;
        while t < total
            invariant
                t <= total,
                total == in_b * out,
                total <= GENES_LIMIT,
                1 <= out,
                in_b + out <= 0x1000_0000,
                connections@.len() == t,
                forall|u: int|
                    0 <= u < t ==> {
                        let c = #[trigger] connections@[u];
                        &&& c.from.0 == u / (out as int)
                        &&& c.to.0 == in_b + u % (out as int)
                        &&& c.enabled
                        &&& 0 <= c.weight < SCALE
                    },
            decreases total - t,
        {
            let w = rng.below(1000);
            connections.push(
                Connection {
                    from: NodeId(t / out),
                    to: NodeId(in_b + t % out),
                    weight: w as i64,
                    enabled: true,
                },
            );
            t += 1;
        }

        let r = Genome {
            id,
            connections,
            layers,
            nodes,
            fitness: 0,
            adjusted_fitness: FitnessShare::zero(),
            species: SpecieId(0),
        };
        proof {
            lemma_seeded_genome_wf(r, shape, in_b as int, out as int);
        }
        r
    }

    /// The offspring of two parents: genes are aligned by innovation key;
    /// matching genes inherit their weight from the fitter parent with
    /// probability `prob_inherit_on_fitter_genomre` (otherwise from the other
    /// parent), a matching gene disabled in either parent is inherited
    /// disabled with probability `prob_inherit_disabled_gene`, and disjoint
    /// or excess genes come only from the fitter parent. The offspring's
    /// nodes and layers are the fitter parent's, so it is well-formed and
    /// feed-forward by construction.
    pub fn crossover(
        parent_1: &Genome,
        parent_2: &Genome,
        id: GenomeId,
        rng: &mut RandomSource,
        settings: &NeatSettings,
    ) -> (r: Genome)
        requires
            parent_1.wf(),
            parent_2.wf(),
            settings.wf(),
        ensures
            ({
                let f = if share_lt(parent_1.adjusted_fitness, parent_2.adjusted_fitness) {
                    parent_2
                } else {
                    parent_1
                };
                let o = if share_lt(parent_1.adjusted_fitness, parent_2.adjusted_fitness) {
                    parent_1
                } else {
                    parent_2
                };
                &&& crossover_genes(r.connections@, f.connections@, o.connections@)
                &&& r.layers@ == f.layers@
                &&& r.nodes@.len() == f.nodes@.len()
                &&& forall|li: int|
                    0 <= li < f.nodes@.len() ==> (#[trigger] r.nodes@[li])@ == f.nodes@[li]@
                &&& forall|shape: TopologyShape| #[trigger]
                    f.matches_shape(shape) ==> r.matches_shape(shape)
            }),
            r.wf(),
            r.id == id,
            r.fitness == 0,
            r.adjusted_fitness == (FitnessShare { num: 0, den: 1 }),
            r.species == parent_1.species,
    {
        let fitter_second = parent_1.adjusted_fitness.lt(&parent_2.adjusted_fitness);
        let f: &Genome = if fitter_second {
            parent_2
        } else {
            parent_1
        };
        let o: &Genome = if fitter_second {
            parent_1
        } else {
            parent_2
        };

        let len = f.connections.len();
        let mut connections: Vec<Connection> = Vec::new();
        let mut i: usize = 0;
        while i < len
            invariant
                f.wf(),
                o.wf(),
                settings.wf(),
                len == f.connections@.len(),
                i <= len,
                connections@.len() == i,
                forall|u: int|
                    0 <= u < i ==> {
                        let c = #[trigger] connections@[u];
                        let fc = f.connections@[u];
                        &&& c.from == fc.from
                        &&& c.to == fc.to
                        &&& (c.weight == fc.weight || (dom_of(o.connections@).contains(
                            key_spec(fc),
                        ) && c.weight == conn_map(o.connections@)[key_spec(fc)].weight))
                        &&& (fc.enabled && (dom_of(o.connections@).contains(key_spec(fc))
                            ==> conn_map(o.connections@)[key_spec(fc)].enabled) ==> c.enabled)
                        &&& (!dom_of(o.connections@).contains(key_spec(fc)) ==> c == fc)
                        &&& -WEIGHT_LIMIT <= c.weight <= WEIGHT_LIMIT
                    },
            decreases len - i,
        {
            let c = f.connections[i];
            proof {
                f.lemma_endpoints_bounded(i as int);
            }
            let k = c.get_hash();
            let mut gene = c;
            match o.get_gene_by_hash(k) {
                Some(g2) => {
                    proof {
                        let j = choose|j: int|
                            0 <= j < keys_of(o.connections@).len() && #[trigger] keys_of(
                                o.connections@,
                            )[j] == k as int;
                        lemma_conn_map_index(o.connections@, j);
                    }
                    let keep_fitter = rng.bernoulli(
                        settings.mutation_probabilities.prob_inherit_on_fitter_genomre,
                    );
                    if !keep_fitter {
                        gene.weight = g2.weight;
                    }
                    if !c.enabled || !g2.enabled {
                        gene.enabled = !rng.bernoulli(
                            settings.mutation_probabilities.prob_inherit_disabled_gene,
                        );
                    }
                },
                None => {},
            }
            connections.push(gene);
            i += 1;
        }

        let layers = copy_layers(&f.layers);
        let nodes = copy_node_groups(&f.nodes);
        let r = Genome {
            id,
            connections,
            layers,
            nodes,
            fitness: 0,
            adjusted_fitness: FitnessShare::zero(),
            species: parent_1.species,
        };
        proof {
            lemma_same_nodes_same_layers(r, *f);
            assert forall|p: int, q: int|
                0 <= p < q < r.connections@.len() implies keys_of(r.connections@)[p] != keys_of(
                r.connections@,
            )[q] by {
                assert(key_spec(r.connections@[p]) == key_spec(f.connections@[p]));
                assert(key_spec(r.connections@[q]) == key_spec(f.connections@[q]));
                assert(keys_of(f.connections@)[p] == key_spec(f.connections@[p]));
                assert(keys_of(f.connections@)[q] == key_spec(f.connections@[q]));
            }
            assert forall|ci: int| 0 <= ci < r.connections@.len() implies {
                let c = #[trigger] r.connections@[ci];
                &&& r.has_node(c.from.0 as int)
                &&& r.has_node(c.to.0 as int)
                &&& r.node_layer(c.from.0 as int) < r.node_layer(c.to.0 as int)
            } by {
                let fc = f.connections@[ci];
                assert(f.has_node(fc.from.0 as int) && f.has_node(fc.to.0 as int));
            }
        }
        r
    }

    /// The node at a valid position is the unique carrier of its id, so the
    /// genome-level layer lookup agrees with the group's layer.
    pub proof fn lemma_node_layer_at(self, li: int, k: int)
        requires
            self.wf_nodes(),
            0 <= li < self.nodes@.len(),
            0 <= k < self.nodes@[li]@.len(),
        ensures
            self.has_node(self.nodes@[li]@[k].id.0 as int),
            self.node_layer(self.nodes@[li]@[k].id.0 as int) == self.layers@[li].0,
    {
        let x = self.nodes@[li]@[k].id.0 as int;
        assert(self.has_node(x));
        let (lj, m): (int, int) = choose|lj: int, m: int|
            0 <= lj < self.nodes@.len() && 0 <= m < self.nodes@[lj]@.len()
                && self.nodes@[lj]@[m].id.0 == x;
        assert(lj == li && m == k);
        assert(self.nodes@[li]@[k].layer == self.layers@[li]);
    }

    /// Finds the position of the node with the given identity.
    fn find_node(&self, id: usize) -> (r: Option<(usize, usize)>)
        ensures
            match r {
                Some(p) => 0 <= p.0 < self.nodes@.len() && 0 <= p.1 < self.nodes@[p.0 as int]@.len()
                    && self.nodes@[p.0 as int]@[p.1 as int].id.0 == id,
                None => !self.has_node(id as int),
            },
    {
        let mut li: usize = 0;
        while li < self.nodes.len()
            invariant
                li <= self.nodes@.len(),
                forall|lj: int, m: int|
                    0 <= lj < li && 0 <= m < self.nodes@[lj]@.len() ==> (#[trigger] self.nodes@[lj]@[m]).id.0
                        != id,
            decreases self.nodes@.len() - li,
        {
            let group = &self.nodes[li];
            let mut k: usize = 0;
            while k < group.len()
                invariant
                    group@ == self.nodes@[li as int]@,
                    li < self.nodes@.len(),
                    k <= group@.len(),
                    forall|m: int| 0 <= m < k ==> (#[trigger] group@[m]).id.0 != id,
                decreases group@.len() - k,
            {
                if group[k].id.0 == id {
                    return Some((li, k));
                }
                k += 1;
            }
            li += 1;
        }
        proof {
            if self.has_node(id as int) {
                let (lj, m): (int, int) = choose|lj: int, m: int|
                    0 <= lj < self.nodes@.len() && 0 <= m < self.nodes@[lj]@.len()
                        && self.nodes@[lj]@[m].id.0 == id as int;
            }
        }
        None
    }

    /// The largest node identity of this genome (there is always at least
    /// one node in a well-formed genome's groups or the result is 0).
    fn max_node_id(&self) -> (r: u64)
        requires
            self.wf(),
        ensures
            forall|li: int, k: int|
                0 <= li < self.nodes@.len() && 0 <= k < self.nodes@[li]@.len()
                    ==> ((#[trigger] self.nodes@[li]@[k]).id.0 as u64) <= r,
            r < NODE_ID_LIMIT,
    {
        let mut r: u64 = 0;
        let mut li: usize = 0;
        while li < self.nodes.len()
            invariant
                self.wf(),
                li <= self.nodes@.len(),
                r < NODE_ID_LIMIT,
                forall|lj: int, m: int|
                    0 <= lj < li && 0 <= m < self.nodes@[lj]@.len()
                        ==> ((#[trigger] self.nodes@[lj]@[m]).id.0 as u64) <= r,
            decreases self.nodes@.len() - li,
        {
            let group = &self.nodes[li];
            let mut k: usize = 0;
            while k < group.len()
                invariant
                    self.wf(),
                    group@ == self.nodes@[li as int]@,
                    li < self.nodes@.len(),
                    k <= group@.len(),
                    r < NODE_ID_LIMIT,
                    forall|m: int| 0 <= m < k ==> ((#[trigger] group@[m]).id.0 as u64) <= r,
                    forall|lj: int, m: int|
                        0 <= lj < li && 0 <= m < self.nodes@[lj]@.len()
                            ==> ((#[trigger] self.nodes@[lj]@[m]).id.0 as u64) <= r,
                decreases group@.len() - k,
            {
                let node_id = group[k].id.0;
                if (node_id as u64) > r {
                    r = node_id as u64;
                }
                k += 1;
            }
            li += 1;
        }
        r
    }

    /// Weight mutation: each enabled gene's weight is either perturbed by a
    /// small uniform jitter (clamped to the weight range) or replaced by a
    /// fresh uniform draw from `[0, 1.0)`. Structure, enabled flags, nodes
    /// and identity are untouched: no gene is added or removed.
    fn mutate_weights(&mut self, rng: &mut RandomSource, settings: &NeatSettings)
        requires
            old(self).wf(),
            settings.wf(),
        ensures
            final(self).wf(),
            final(self).id == old(self).id,
            final(self).fitness == old(self).fitness,
            final(self).adjusted_fitness == old(self).adjusted_fitness,
            final(self).species == old(self).species,
            final(self).layers == old(self).layers,
            final(self).nodes == old(self).nodes,
            final(self).connections@.len() == old(self).connections@.len(),
            forall|i: int|
                0 <= i < old(self).connections@.len() ==> {
                    let c = #[trigger] final(self).connections@[i];
                    let oc = old(self).connections@[i];
                    c.from == oc.from && c.to == oc.to && c.enabled == oc.enabled
                },
            forall|shape: TopologyShape| #[trigger]
                old(self).matches_shape(shape) ==> final(self).matches_shape(shape),
            forall|x: int| #[trigger] old(self).has_node(x) ==> final(self).has_node(x),
    {
        let len = self.connections.len();
        let mut i: usize = 0;
        while i < len
            invariant
                self.wf(),
                settings.wf(),
                len == self.connections@.len(),
                i <= len,
                self.id == old(self).id,
                self.fitness == old(self).fitness,
                self.adjusted_fitness == old(self).adjusted_fitness,
                self.species == old(self).species,
                self.layers == old(self).layers,
                self.nodes == old(self).nodes,
                self.connections@.len() == old(self).connections@.len(),
                forall|u: int|
                    0 <= u < len ==> {
                        let c = #[trigger] self.connections@[u];
                        let oc = old(self).connections@[u];
                        c.from == oc.from && c.to == oc.to && c.enabled == oc.enabled
                    },
            decreases len - i,
        {
            let c = self.connections[i];
            if c.enabled {
                let nw: i64 = if rng.bernoulli(
                    settings.mutation_probabilities.prob_mutation_weight_perturbation,
                ) {
                    let jitter: i64 = (rng.below(201) as i64) - 100;
                    let moved = c.weight + jitter;
                    if moved > WEIGHT_LIMIT {
                        WEIGHT_LIMIT
                    } else if moved < -WEIGHT_LIMIT {
                        -WEIGHT_LIMIT
                    } else {
                        moved
                    }
                } else {
                    rng.below(1000) as i64
                };
                let ghost prev = self.connections@;
                let ghost g0 = *self;
                self.connections.set(i, Connection { from: c.from, to: c.to, weight: nw, enabled: c.enabled });
                proof {
                    lemma_same_nodes_same_layers(*self, g0);
                    assert forall|p: int, q: int|
                        0 <= p < q < self.connections@.len() implies keys_of(self.connections@)[p]
                        != keys_of(self.connections@)[q] by {
                        assert(keys_of(prev)[p] == key_spec(prev[p]));
                        assert(keys_of(prev)[q] == key_spec(prev[q]));
                        assert(key_spec(self.connections@[p]) == key_spec(prev[p]));
                        assert(key_spec(self.connections@[q]) == key_spec(prev[q]));
                    }
                    assert forall|u: int| 0 <= u < self.connections@.len() implies {
                        let cc = #[trigger] self.connections@[u];
                        &&& self.has_node(cc.from.0 as int)
                        &&& self.has_node(cc.to.0 as int)
                        &&& self.node_layer(cc.from.0 as int) < self.node_layer(cc.to.0 as int)
                    } by {
                        assert(g0.has_node(prev[u].from.0 as int));
                        assert(g0.has_node(prev[u].to.0 as int));
                        assert(self.connections@[u].from == prev[u].from);
                        assert(self.connections@[u].to == prev[u].to);
                    }
                }
            }
            i += 1;
        }
        proof {
            lemma_same_nodes_same_layers(*self, *old(self));
        }
    }

    /// Add-connection mutation: one attempt at joining two random nodes of
    /// different layers with no existing gene between them, respecting the
    /// feed-forward layer order. Either exactly one fresh enabled gene is
    /// appended (when the random pair is valid and there is room) or the
    /// genome is unchanged; existing genes are never touched.
    fn mutate_add_connection(&mut self, rng: &mut RandomSource)
        requires
            old(self).wf(),
        ensures
            final(self).wf(),
            final(self).id == old(self).id,
            final(self).fitness == old(self).fitness,
            final(self).adjusted_fitness == old(self).adjusted_fitness,
            final(self).species == old(self).species,
            final(self).layers == old(self).layers,
            final(self).nodes == old(self).nodes,
            old(self).connections@.len() <= final(self).connections@.len() <= old(
                self,
            ).connections@.len() + 1,
            forall|i: int|
                0 <= i < old(self).connections@.len() ==> #[trigger] final(self).connections@[i]
                    == old(self).connections@[i],
            final(self).connections@.len() == old(self).connections@.len() + 1 ==> {
                let c = final(self).connections@.last();
                c.enabled && 0 <= c.weight < SCALE && !dom_of(old(self).connections@).contains(
                    key_spec(c),
                )
            },
            forall|shape: TopologyShape| #[trigger]
                old(self).matches_shape(shape) ==> final(self).matches_shape(shape),
            forall|x: int| #[trigger] old(self).has_node(x) ==> final(self).has_node(x),
    {
        let gl = self.nodes.len();
        let li = rng.below(gl);
        let lj = rng.below(gl);
        if self.layers[li].0 == self.layers[lj].0 {
            return ;
        }
        let (lo, hi) = if self.layers[li].0 < self.layers[lj].0 {
            (li, lj)
        } else {
            (lj, li)
        };
        if self.nodes[lo].len() == 0 || self.nodes[hi].len() == 0 {
            return ;
        }
        if self.connections.len() >= GENES_LIMIT {
            return ;
        }
        let k = rng.below(self.nodes[lo].len());
        let m = rng.below(self.nodes[hi].len());
        let from = self.nodes[lo][k].id;
        let to = self.nodes[hi][m].id;
        let w = rng.below(1000);
        let cand = Connection { from, to, weight: w as i64, enabled: true };
        proof {
            self.lemma_node_layer_at(lo as int, k as int);
            self.lemma_node_layer_at(hi as int, m as int);
        }
        let hash = cand.get_hash();
        if self.get_gene_by_hash(hash).is_none() {
            let ghost g0 = *self;
            let ghost prev = self.connections@;
            self.connections.push(cand);
            proof {
                lemma_same_nodes_same_layers(*self, g0);
                assert forall|p: int, q: int|
                    0 <= p < q < self.connections@.len() implies keys_of(self.connections@)[p]
                    != keys_of(self.connections@)[q] by {
                    assert(key_spec(self.connections@[p]) == keys_of(self.connections@)[p]);
                    assert(key_spec(self.connections@[q]) == keys_of(self.connections@)[q]);
                    if q < prev.len() {
                        assert(keys_of(prev)[p] == key_spec(prev[p]));
                        assert(keys_of(prev)[q] == key_spec(prev[q]));
                    } else {
                        assert(self.connections@[q] == cand);
                        if keys_of(prev).contains(key_spec(cand)) {
                            assert(dom_of(prev).contains(key_spec(cand)));
                        }
                        assert(keys_of(prev)[p] == key_spec(prev[p]));
                    }
                }
                assert forall|u: int| 0 <= u < self.connections@.len() implies {
                    let cc = #[trigger] self.connections@[u];
                    &&& self.has_node(cc.from.0 as int)
                    &&& self.has_node(cc.to.0 as int)
                    &&& self.node_layer(cc.from.0 as int) < self.node_layer(cc.to.0 as int)
                    &&& -WEIGHT_LIMIT <= cc.weight <= WEIGHT_LIMIT
                } by {
                    if u < prev.len() {
                        assert(g0.has_node(prev[u].from.0 as int));
                        assert(g0.has_node(prev[u].to.0 as int));
                        assert(self.connections@[u] == prev[u]);
                    } else {
                        assert(self.connections@[u] == cand);
                        assert(g0.has_node(cand.from.0 as int));
                        assert(g0.has_node(cand.to.0 as int));
                        assert(g0.node_layer(cand.from.0 as int) == g0.layers@[lo as int].0);
                        assert(g0.node_layer(cand.to.0 as int) == g0.layers@[hi as int].0);
                        assert(g0.layers@[lo as int].0 < g0.layers@[hi as int].0);
                    }
                }
            }
        }
    }

    /// Finds the node group carrying a layer label, if any.
    fn find_layer(&self, label: usize) -> (r: Option<usize>)
        ensures
            match r {
                Some(p) => 0 <= p < self.layers@.len() && self.layers@[p as int].0 == label,
                None => forall|j: int| 0 <= j < self.layers@.len() ==> (#[trigger] self.layers@[j]).0 != label,
            },
    {
        let mut p: usize = 0;
        while p < self.layers.len()
            invariant
                p <= self.layers@.len(),
                forall|j: int| 0 <= j < p ==> (#[trigger] self.layers@[j]).0 != label,
            decreases self.layers@.len() - p,
        {
            if self.layers[p].0 == label {
                return Some(p);
            }
            p += 1;
        }
        None
    }

    /// Add-node mutation: a random enabled gene is split. The gene is
    /// disabled, a fresh node is placed on a layer strictly between the
    /// gene's endpoint layers (an existing intermediate layer with that
    /// label, or a newly appended one), and two genes are added: endpoint
    /// weights follow the convention of one leg at 1.0 and the other at the
    /// split gene's weight. When no enabled gene exists, no room is left, or
    /// the endpoint layers are adjacent, the genome is unchanged. No gene or
    /// node is ever removed, and every surviving gene keeps its endpoints
    /// and weight.
    #[verifier::rlimit(100)]
    #[verifier::spinoff_prover]
    fn mutate_add_node(&mut self, rng: &mut RandomSource)
        requires
            old(self).wf(),
        ensures
            final(self).wf(),
            final(self).id == old(self).id,
            final(self).fitness == old(self).fitness,
            final(self).adjusted_fitness == old(self).adjusted_fitness,
            final(self).species == old(self).species,
            old(self).connections@.len() <= final(self).connections@.len() <= old(
                self,
            ).connections@.len() + 2,
            forall|i: int|
                0 <= i < old(self).connections@.len() ==> {
                    let c = #[trigger] final(self).connections@[i];
                    let oc = old(self).connections@[i];
                    c.from == oc.from && c.to == oc.to && c.weight == oc.weight
                },
            forall|shape: TopologyShape| #[trigger]
                old(self).matches_shape(shape) ==> final(self).matches_shape(shape),
            forall|x: int| #[trigger] old(self).has_node(x) ==> final(self).has_node(x),
            final(self).connections@.len() == old(self).connections@.len()
                || final(self).connections@.len() == old(self).connections@.len() + 2,
            final(self).connections@.len() == old(self).connections@.len() ==> *final(self)
                == *old(self),
            final(self).connections@.len() == old(self).connections@.len() + 2 ==> (exists|j: int|
                #![trigger old(self).connections@[j]]
                0 <= j < old(self).connections@.len() && {
                    let oc = old(self).connections@[j];
                    let leg1 = final(self).connections@[old(self).connections@.len() as int];
                    let leg2 = final(self).connections@[old(self).connections@.len() as int + 1];
                    &&& oc.enabled
                    &&& final(self).connections@[j] == (Connection { enabled: false, ..oc })
                    &&& leg1.from == oc.from
                    &&& leg2.to == oc.to
                    &&& leg1.to == leg2.from
                    &&& leg1.weight == SCALE as i64
                    &&& leg2.weight == oc.weight
                    &&& leg1.enabled && leg2.enabled
                    &&& !old(self).has_node(leg1.to.0 as int)
                    &&& final(self).has_node(leg1.to.0 as int)
                }),
    {
        let mut idxs: Vec<usize> = Vec::new();
        let clen = self.connections.len();
        let mut i: usize = 0;
        while i < clen
            invariant
                self.wf(),
                clen == self.connections@.len(),
                i <= clen,
                forall|u: int|
                    0 <= u < idxs@.len() ==> 0 <= #[trigger] idxs@[u] < clen
                        && self.connections@[idxs@[u] as int].enabled,
            decreases clen - i,
        {
            if self.connections[i].enabled {
                idxs.push(i);
            }
            i += 1;
        }
        if idxs.len() == 0 {
            return ;
        }
        if clen > GENES_LIMIT - 2 {
            return ;
        }
        let pick = idxs[rng.below(idxs.len())];
        let c = self.connections[pick];

        let fpos = match self.find_node(c.from.0) {
            Some(p) => p,
            None => {
                proof {
                    assert(false);
                }
                return ;
            },
        };
        let tpos = match self.find_node(c.to.0) {
            Some(p) => p,
            None => {
                proof {
                    assert(false);
                }
                return ;
            },
        };
        let (fli, fk) = fpos;
        let (tli, tk) = tpos;
        proof {
            self.lemma_node_layer_at(fli as int, fk as int);
            self.lemma_node_layer_at(tli as int, tk as int);
        }
        let lf = self.layers[fli].0;
        let lt = self.layers[tli].0;
        proof {
            assert(self.node_layer(c.from.0 as int) == lf);
            assert(self.node_layer(c.to.0 as int) == lt);
            assert(lf < lt);
        }
        if lt - lf < 2 {
            return ;
        }
        let gap = lt - lf;
        let half = gap / 2;
        proof {
            assert(1 <= half < gap) by (nonlinear_arith)
                requires
                    gap >= 2,
                    half == gap / 2,
            ;
        }
        let mid = lf + half;

        let maxid = self.max_node_id();
        let nid64: u64 = maxid + 1;
        if nid64 >= NODE_ID_LIMIT {
            return ;
        }
        let new_id: usize = (maxid as usize) + 1;
        let node = Node { id: NodeId(new_id), value: 0, layer: LayerId(mid) };

        let ghost g0 = *self;
        match self.find_layer(mid) {
            Some(p) => {
                proof {
                    assert(p != 0 && p != 1);
                }
                let mut grp = self.nodes.remove(p);
                grp.push(node);
                self.nodes.insert(p, grp);
                proof {
                    assert forall|j: int|
                        0 <= j < self.nodes@.len() && j != p implies (#[trigger] self.nodes@[j])
                        == g0.nodes@[j] by {}
                    lemma_node_added(g0, *self, p as int, g0.nodes@[p as int]@.len() as int, node, mid as int);
                }
            },
            None => {
                self.layers.push(LayerId(mid));
                self.nodes.push(node_singleton(node));
                proof {
                    lemma_node_added(
                        g0,
                        *self,
                        g0.nodes@.len() as int,
                        0,
                        node,
                        mid as int,
                    );
                }
            },
        }
        let ghost g1 = *self;
        proof {
            assert(g1.wf_nodes());
            assert(g1.has_node(new_id as int) && g1.node_layer(new_id as int) == mid);
            assert(forall|x: int|
                #[trigger] g0.has_node(x) ==> g1.has_node(x) && g1.node_layer(x)
                    == g0.node_layer(x));
        }

        self.connections.set(
            pick,
            Connection { from: c.from, to: c.to, weight: c.weight, enabled: false },
        );
        self.connections.push(
            Connection { from: c.from, to: NodeId(new_id), weight: 1000, enabled: true },
        );
        self.connections.push(
            Connection { from: NodeId(new_id), to: c.to, weight: c.weight, enabled: true },
        );
        proof {
            assert(self.connections@ =~= g0.connections@.update(
                pick as int,
                Connection { enabled: false, ..c },
            ).push(Connection { from: c.from, to: NodeId(new_id), weight: 1000, enabled: true }).push(
                Connection { from: NodeId(new_id), to: c.to, weight: c.weight, enabled: true },
            ));
            lemma_split_install_wf(
                g0,
                g1,
                *self,
                pick as int,
                c,
                new_id,
                lf as int,
                lt as int,
                mid as int,
                maxid,
            );
            // the split-gene account of this mutation
            assert(g0 == *old(self));
            assert(!old(self).has_node(new_id as int)) by {
                if old(self).has_node(new_id as int) {
                    let (li, k): (int, int) = choose|li: int, k: int|
                        0 <= li < g0.nodes@.len() && 0 <= k < g0.nodes@[li]@.len()
                            && g0.nodes@[li]@[k].id.0 == new_id as int;
                }
            }
            lemma_same_nodes_same_layers(*self, g1);
            assert(self.has_node(new_id as int));
            assert({
                let oc = old(self).connections@[pick as int];
                let leg1 = self.connections@[old(self).connections@.len() as int];
                let leg2 = self.connections@[old(self).connections@.len() as int + 1];
                &&& oc.enabled
                &&& self.connections@[pick as int] == (Connection { enabled: false, ..oc })
                &&& leg1.from == oc.from
                &&& leg2.to == oc.to
                &&& leg1.to == leg2.from
                &&& leg1.weight == SCALE as i64
                &&& leg2.weight == oc.weight
                &&& leg1.enabled && leg2.enabled
                &&& !old(self).has_node(leg1.to.0 as int)
                &&& self.has_node(leg1.to.0 as int)
            });
        }
    }

    /// Applies the three mutations, each under its own probability: weight
    /// mutation (perturb or redraw enabled weights), add-connection, and
    /// add-node. Mutation never removes a gene, never changes a gene's
    /// endpoints, and preserves feed-forward acyclicity and the population's
    /// interface — the result is well-formed whatever the draws were.
    #[verifier::rlimit(100)]
    #[verifier::spinoff_prover]
    pub fn mutate(&mut self, rng: &mut RandomSource, settings: &NeatSettings)
        requires
            old(self).wf(),
            settings.wf(),
        ensures
            final(self).wf(),
            final(self).id == old(self).id,
            final(self).fitness == old(self).fitness,
            final(self).adjusted_fitness == old(self).adjusted_fitness,
            final(self).species == old(self).species,
            old(self).connections@.len() <= final(self).connections@.len(),
            forall|i: int|
                0 <= i < old(self).connections@.len() ==> {
                    let c = #[trigger] final(self).connections@[i];
                    let oc = old(self).connections@[i];
                    c.from == oc.from && c.to == oc.to
                },
            forall|shape: TopologyShape| #[trigger]
                old(self).matches_shape(shape) ==> final(self).matches_shape(shape),
            forall|x: int| #[trigger] old(self).has_node(x) ==> final(self).has_node(x),
            final(self).connections@.len() == old(self).connections@.len() + 1
                ==> final(self).connections@.last().enabled,
            final(self).connections@.len() >= old(self).connections@.len() + 2 ==> (exists|j: int|
                #![trigger final(self).connections@[j]]
                0 <= j < final(self).connections@.len() as int - 2 && {
                    let cj = final(self).connections@[j];
                    let leg1 = final(self).connections@[final(self).connections@.len() as int - 2];
                    let leg2 = final(self).connections@[final(self).connections@.len() as int - 1];
                    &&& !cj.enabled
                    &&& leg1.from == cj.from
                    &&& leg2.to == cj.to
                    &&& leg1.to == leg2.from
                    &&& leg1.weight == SCALE as i64
                    &&& leg2.weight == cj.weight
                    &&& leg1.enabled && leg2.enabled
                    &&& !old(self).has_node(leg1.to.0 as int)
                    &&& final(self).has_node(leg1.to.0 as int)
                }),
    {
        if rng.bernoulli(settings.mutation_probabilities.prob_mutation_weight) {
            self.mutate_weights(rng, settings);
        }
        if rng.bernoulli(settings.mutation_probabilities.prob_mutation_new_connection) {
            self.mutate_add_connection(rng);
        }
        let ghost m2 = *self;
        if rng.bernoulli(settings.mutation_probabilities.prob_mutation_new_node) {
            self.mutate_add_node(rng);
        }
        proof {
            lemma_same_nodes_same_layers(m2, *old(self));
            if self.connections@.len() >= old(self).connections@.len() + 2 {
                assert(self.connections@.len() == m2.connections@.len() + 2);
                let j0 = choose|j: int|
                    #![trigger m2.connections@[j]]
                    0 <= j < m2.connections@.len() && {
                        let oc = m2.connections@[j];
                        let leg1 = self.connections@[m2.connections@.len() as int];
                        let leg2 = self.connections@[m2.connections@.len() as int + 1];
                        &&& oc.enabled
                        &&& self.connections@[j] == (Connection { enabled: false, ..oc })
                        &&& leg1.from == oc.from
                        &&& leg2.to == oc.to
                        &&& leg1.to == leg2.from
                        &&& leg1.weight == SCALE as i64
                        &&& leg2.weight == oc.weight
                        &&& leg1.enabled && leg2.enabled
                        &&& !m2.has_node(leg1.to.0 as int)
                        &&& self.has_node(leg1.to.0 as int)
                    };
                assert({
                    let cj = self.connections@[j0];
                    let leg1 = self.connections@[self.connections@.len() as int - 2];
                    let leg2 = self.connections@[self.connections@.len() as int - 1];
                    &&& !cj.enabled
                    &&& leg1.from == cj.from
                    &&& leg2.to == cj.to
                    &&& leg1.to == leg2.from
                    &&& leg1.weight == SCALE as i64
                    &&& leg2.weight == cj.weight
                    &&& leg1.enabled && leg2.enabled
                    &&& !old(self).has_node(leg1.to.0 as int)
                    &&& self.has_node(leg1.to.0 as int)
                });
            }
        }
    }

    /// Writes the raw fitness computed by the caller's evaluator.
    pub fn set_fitness(&mut self, fitness: u64)
        requires
            old(self).wf(),
            fitness <= FITNESS_LIMIT,
        ensures
            final(self).wf(),
            *final(self) == (Genome { fitness, ..*old(self) }),
    {
        self.fitness = fitness;
    }

    /// In a well-formed genome every gene endpoint is a 32-bit node id.
    pub proof fn lemma_endpoints_bounded(self, ci: int)
        requires
            self.wf(),
            0 <= ci < self.connections@.len(),
        ensures
            (self.connections@[ci].from.0 as u64) < NODE_ID_LIMIT,
            (self.connections@[ci].to.0 as u64) < NODE_ID_LIMIT,
    {
        let c = self.connections@[ci];
        let (li, k): (int, int) = choose|li: int, k: int|
            0 <= li < self.nodes@.len() && 0 <= k < self.nodes@[li]@.len()
                && self.nodes@[li]@[k].id.0 == c.from.0 as int;
        let (lj, m): (int, int) = choose|lj: int, m: int|
            0 <= lj < self.nodes@.len() && 0 <= m < self.nodes@[lj]@.len()
                && self.nodes@[lj]@[m].id.0 == c.to.0 as int;
        assert(self.nodes@[li]@[k].id.0 == c.from.0);
        assert(self.nodes@[lj]@[m].id.0 == c.to.0);
    }

    /// Looks a gene up by its innovation key.
    pub fn get_gene_by_hash(&self, hash: u64) -> (r: Option<Connection>)
        requires
            self.wf(),
        ensures
            match r {
                Some(c) => dom_of(self.connections@).contains(hash as int) && c == conn_map(
                    self.connections@,
                )[hash as int],
                None => !dom_of(self.connections@).contains(hash as int),
            },
    {
        broadcast use vstd::set::group_set_axioms;

        let n = self.connections.len();
        let mut i: usize = 0;
        while i < n
            invariant
                self.wf(),
                n == self.connections@.len(),
                i <= n,
                forall|j: int| 0 <= j < i ==> keys_of(self.connections@)[j] != hash as int,
            decreases n - i,
        {
            let c = self.connections[i];
            proof {
                self.lemma_endpoints_bounded(i as int);
            }
            if c.get_hash() == hash {
                proof {
                    assert(keys_of(self.connections@)[i as int] == key_spec(c));
                    lemma_conn_map_index(self.connections@, i as int);
                }
                return Some(c);
            }
            i += 1;
        }
        proof {
            if dom_of(self.connections@).contains(hash as int) {
                let j = choose|j: int|
                    0 <= j < keys_of(self.connections@).len() && #[trigger] keys_of(
                        self.connections@,
                    )[j] == hash as int;
            }
        }
        None
    }

    /// The largest innovation key of this genome, or -1 when it has no genes.
    fn max_gene_key(&self) -> (r: i128)
        requires
            self.wf(),
        ensures
            r == max_key(keys_of(self.connections@)),
    {
        let n = self.connections.len();
        let mut m: i128 = -1;
        let mut i: usize = 0;
        while i < n
            invariant
                self.wf(),
                n == self.connections@.len(),
                i <= n,
                m == max_key(keys_of(self.connections@).take(i as int)),
            decreases n - i,
        {
            proof {
                self.lemma_endpoints_bounded(i as int);
            }
            let k = self.connections[i].get_hash();
            proof {
                let ks = keys_of(self.connections@);
                assert(ks.take(i + 1).drop_last() =~= ks.take(i as int));
                assert(ks.take(i + 1).last() == key_spec(self.connections@[i as int]));
            }
            if (k as i128) > m {
                m = k as i128;
            }
            i += 1;
        }
        proof {
            assert(keys_of(self.connections@).take(n as int) =~= keys_of(self.connections@));
        }
        m
    }

    /// The compatibility distance between this genome and another, in fixed
    /// point (1000 stands for 1.0): matching genes contribute their weight
    /// differences, disjoint and excess genes their counts, exactly as
    /// [`sim_spec`] states. The computation reads both genomes and mutates
    /// neither, and is symmetric in its two genomes.
    pub fn similarity(&self, other: &Genome, settings: &NeatSettings) -> (r: u64)
        requires
            self.wf(),
            other.wf(),
            settings.wf(),
        ensures
            r as int == sim_spec(self.connections@, other.connections@, *settings),
    {
        broadcast use vstd::set::group_set_axioms;
        broadcast use vstd::seq_lib::seq_to_set_is_finite;

        let ghost a = self.connections@;
        let ghost b = other.connections@;
        let maxk_a = self.max_gene_key();
        let maxk_b = other.max_gene_key();
        let ghost mka = max_key(keys_of(a));
        let ghost mkb = max_key(keys_of(b));

        let la = self.connections.len();
        let lb = other.connections.len();

        let mut num_matching: u64 = 0;
        let mut num_excess: u64 = 0;
        let mut num_disjoint: u64 = 0;
        let mut weight_difference: u64 = 0;

        proof {
            assert(dom_of(a.take(0)) =~= Set::<int>::empty());
            assert(dom_of(a.take(0)).intersect(dom_of(b)) =~= Set::<int>::empty());
            assert(dom_of(a.take(0)).filter(|x: int| !dom_of(b).contains(x) && x <= mkb)
                =~= Set::<int>::empty());
            assert(dom_of(a.take(0)).filter(|x: int| x > mkb) =~= Set::<int>::empty());
        }
        let mut i: usize = 0;
        while i < la
            invariant
                self.wf(),
                other.wf(),
                a == self.connections@,
                b == other.connections@,
                mka == max_key(keys_of(a)),
                mkb == max_key(keys_of(b)),
                maxk_b == mkb,
                la == a.len(),
                lb == b.len(),
                i <= la,
                num_matching as int == dom_of(a.take(i as int)).intersect(dom_of(b)).len(),
                num_matching <= i,
                weight_difference as int == key_sum(
                    dom_of(a.take(i as int)).intersect(dom_of(b)),
                    wdiff_at(a, b),
                ),
                weight_difference <= 2_000_000 * (i as u64),
                num_disjoint as int == count_within(dom_of(a.take(i as int)), dom_of(b), mkb),
                num_disjoint <= i,
                num_excess as int == count_beyond(dom_of(a.take(i as int)), mkb),
                num_excess <= i,
            decreases la - i,
        {
            let c = self.connections[i];
            proof {
                self.lemma_endpoints_bounded(i as int);
            }
            let k = c.get_hash();
            let ghost pd = dom_of(a.take(i as int));
            let ghost ms = pd.intersect(dom_of(b));
            let ghost ds = pd.filter(|x: int| !dom_of(b).contains(x) && x <= mkb);
            let ghost es = pd.filter(|x: int| x > mkb);
            proof {
                lemma_dom_take_succ(a, i as int);
                assert(keys_of(a)[i as int] == key_spec(c));
            }
            match other.get_gene_by_hash(k) {
                Some(g2) => {
                    proof {
                        lemma_conn_map_index(a, i as int);
                        // the matching gene is a real entry of the other list
                        let j = choose|j: int|
                            0 <= j < keys_of(b).len() && #[trigger] keys_of(b)[j] == k as int;
                        lemma_conn_map_index(b, j);
                        lemma_max_key_ge(keys_of(b), j);
                        assert(ms.insert(k as int) =~= dom_of(a.take(i + 1)).intersect(dom_of(b)));
                        lemma_key_sum_insert(ms, wdiff_at(a, b), k as int);
                        assert(wdiff_at(a, b)(k as int) == abs_diff(
                            c.weight as int,
                            g2.weight as int,
                        ));
                        assert(ds =~= dom_of(a.take(i + 1)).filter(
                            |x: int| !dom_of(b).contains(x) && x <= mkb,
                        ));
                        assert(es =~= dom_of(a.take(i + 1)).filter(|x: int| x > mkb));
                    }
                    let d: i64 = if c.weight >= g2.weight {
                        c.weight - g2.weight
                    } else {
                        g2.weight - c.weight
                    };
                    num_matching += 1;
                    weight_difference += d as u64;
                },
                None => {
                    proof {
                        assert(ms =~= dom_of(a.take(i + 1)).intersect(dom_of(b)));
                    }
                    if (k as i128) <= maxk_b {
                        proof {
                            assert(ds.insert(k as int) =~= dom_of(a.take(i + 1)).filter(
                                |x: int| !dom_of(b).contains(x) && x <= mkb,
                            ));
                            assert(es =~= dom_of(a.take(i + 1)).filter(|x: int| x > mkb));
                        }
                        num_disjoint += 1;
                    } else {
                        proof {
                            assert(ds =~= dom_of(a.take(i + 1)).filter(
                                |x: int| !dom_of(b).contains(x) && x <= mkb,
                            ));
                            assert(es.insert(k as int) =~= dom_of(a.take(i + 1)).filter(
                                |x: int| x > mkb,
                            ));
                        }
                        num_excess += 1;
                    }
                },
            }
            i += 1;
        }
        proof {
            lemma_dom_take_all(a);
            assert(dom_of(b.take(0)) =~= Set::<int>::empty());
            assert(dom_of(b.take(0)).filter(|x: int| !dom_of(a).contains(x) && x <= mka)
                =~= Set::<int>::empty());
            assert(dom_of(b.take(0)).filter(|x: int| x > mka) =~= Set::<int>::empty());
        }

        let mut j: usize = 0;
        while j < lb
            invariant
                self.wf(),
                other.wf(),
                a == self.connections@,
                b == other.connections@,
                mka == max_key(keys_of(a)),
                mkb == max_key(keys_of(b)),
                maxk_a == mka,
                la == a.len(),
                lb == b.len(),
                j <= lb,
                num_matching as int == matching_count(a, b),
                num_matching <= la,
                weight_difference as int == weight_diff(a, b),
                weight_difference <= 2_000_000 * (la as u64),
                num_disjoint as int == count_within(dom_of(a), dom_of(b), mkb) + count_within(
                    dom_of(b.take(j as int)),
                    dom_of(a),
                    mka,
                ),
                num_disjoint as int <= la + j,
                num_excess as int == count_beyond(dom_of(a), mkb) + count_beyond(
                    dom_of(b.take(j as int)),
                    mka,
                ),
                num_excess as int <= la + j,
            decreases lb - j,
        {
            let c = other.connections[j];
            proof {
                other.lemma_endpoints_bounded(j as int);
            }
            let k = c.get_hash();
            let ghost pd = dom_of(b.take(j as int));
            let ghost ds = pd.filter(|x: int| !dom_of(a).contains(x) && x <= mka);
            let ghost es = pd.filter(|x: int| x > mka);
            proof {
                lemma_dom_take_succ(b, j as int);
                assert(keys_of(b)[j as int] == key_spec(c));
            }
            match self.get_gene_by_hash(k) {
                Some(_) => {
                    proof {
                        // a matching key cannot lie beyond the other maximum
                        let ja = choose|ja: int|
                            0 <= ja < keys_of(a).len() && #[trigger] keys_of(a)[ja] == k as int;
                        lemma_max_key_ge(keys_of(a), ja);
                        assert(ds =~= dom_of(b.take(j + 1)).filter(
                            |x: int| !dom_of(a).contains(x) && x <= mka,
                        ));
                        assert(es =~= dom_of(b.take(j + 1)).filter(|x: int| x > mka));
                    }
                },
                None => {
                    if (k as i128) <= maxk_a {
                        proof {
                            assert(ds.insert(k as int) =~= dom_of(b.take(j + 1)).filter(
                                |x: int| !dom_of(a).contains(x) && x <= mka,
                            ));
                            assert(es =~= dom_of(b.take(j + 1)).filter(|x: int| x > mka));
                        }
                        num_disjoint += 1;
                    } else {
                        proof {
                            assert(ds =~= dom_of(b.take(j + 1)).filter(
                                |x: int| !dom_of(a).contains(x) && x <= mka,
                            ));
                            assert(es.insert(k as int) =~= dom_of(b.take(j + 1)).filter(
                                |x: int| x > mka,
                            ));
                        }
                        num_excess += 1;
                    }
                },
            }
            j += 1;
        }
        proof {
            lemma_dom_take_all(b);
        }

        let cutoff = settings.normalized_gene_size;
        let n: u64 = if la < cutoff && lb < cutoff {
            1
        } else if la >= lb && la >= 1 {
            la as u64
        } else if lb >= la && lb >= 1 {
            lb as u64
        } else {
            1
        };

        let ce = settings.similarity_coeficients.coeficient_excess;
        let cd = settings.similarity_coeficients.coeficient_disjoint;
        let cw = settings.similarity_coeficients.coeficient_weight;

        proof {
            vstd::arithmetic::mul::lemma_mul_upper_bound(
                ce as int,
                1_000_000,
                num_excess as int,
                2_000_000,
            );
            vstd::arithmetic::mul::lemma_mul_upper_bound(
                cd as int,
                1_000_000,
                num_disjoint as int,
                2_000_000,
            );
            vstd::arithmetic::mul::lemma_mul_upper_bound(
                cw as int,
                1_000_000,
                weight_difference as int,
                2_000_000_000_000,
            );
        }
        let structural: u64 = (ce * num_excess + cd * num_disjoint) / n;
        let weights: u64 = if num_matching == 0 {
            0
        } else {
            (cw * weight_difference) / (num_matching * 1000)
        };
        structural + weights
    }
}

} // verus!
