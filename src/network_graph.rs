//! A flow network over grid points: directed edges with capacity, cost and flow,
//! cheapest augmenting paths, and maximum flow by repeated augmentation.
use vstd::prelude::*;
use crate::grid::Point;
use crate::pathfinding::{count_true, lemma_count_true_bound, lemma_count_true_none, lemma_count_true_set};

verus! {

/// A directed edge, stored with its tail.
#[derive(Debug, Clone, Copy, PartialEq, Eq, Structural)]
pub struct Edge {
    pub to: Point,
    pub capacity: u64,
    pub cost: u64,
    pub flow: u64,
}

/// A flow network. Nodes are kept in the order they were first mentioned and
/// edges in the order they were added; node `i` is `nodes[i]`, and edge `k`
/// runs from node `tails[k]` to node `heads[k]`.
#[derive(Debug)]
pub struct Graph {
    nodes: Vec<Point>,
    tails: Vec<usize>,
    heads: Vec<usize>,
    edges: Vec<Edge>,
    pub source: Point,
    pub sink: Point,
}

/// The flow summed over the edges `k < len` whose end, as `ends` gives it (tails
/// or heads), is node `v`.
pub open spec fn sum_at(ends: Seq<usize>, edges: Seq<Edge>, v: int, len: int) -> int
    decreases len,
{
    if len <= 0 {
        0
    } else {
        sum_at(ends, edges, v, len - 1) + if ends[len - 1] == v {
            edges[len - 1].flow as int
        } else {
            0
        }
    }
}

/// The spare capacity of all edges `k < len` together.
pub open spec fn residual_sum(edges: Seq<Edge>, len: int) -> int
    decreases len,
{
    if len <= 0 {
        0
    } else {
        residual_sum(edges, len - 1) + (edges[len - 1].capacity - edges[len - 1].flow)
    }
}

/// The edges `k < len` whose tail is `v`, in the order they were added.
pub open spec fn out_edges(tails: Seq<usize>, edges: Seq<Edge>, v: int, len: int) -> Seq<Edge>
    decreases len,
{
    if len <= 0 {
        seq![]
    } else if tails[len - 1] == v {
        out_edges(tails, edges, v, len - 1).push(edges[len - 1])
    } else {
        out_edges(tails, edges, v, len - 1)
    }
}

/// Changing edge `k` moves the flow sum at `v` by the change of its flow when `k` ends at `v`.
proof fn lemma_sum_at_update(ends: Seq<usize>, edges: Seq<Edge>, v: int, len: int, k: int, e: Edge)
    requires
        0 <= k < len <= edges.len(),
        len <= ends.len(),
    ensures
        sum_at(ends, edges.update(k, e), v, len) == sum_at(ends, edges, v, len) + if ends[k] == v {
            e.flow - edges[k].flow
        } else {
            0
        },
    decreases len,
{
    if len - 1 > k {
        lemma_sum_at_update(ends, edges, v, len - 1, k, e);
    } else {
        lemma_sum_at_same(ends, edges, edges.update(k, e), v, len - 1);
    }
}

/// The flow sum at `v` over the first `len` edges depends on those edges alone.
proof fn lemma_sum_at_same(ends: Seq<usize>, a: Seq<Edge>, b: Seq<Edge>, v: int, len: int)
    requires
        len <= a.len(),
        len <= b.len(),
        forall|k: int| 0 <= k < len ==> #[trigger] a[k] == b[k],
    ensures
        sum_at(ends, a, v, len) == sum_at(ends, b, v, len),
    decreases len,
{
    if len > 0 {
        lemma_sum_at_same(ends, a, b, v, len - 1);
    }
}

/// Flow sums over the first `len` edges depend on those edges and their ends alone.
proof fn lemma_sum_at_prefix(e1: Seq<usize>, a: Seq<Edge>, e2: Seq<usize>, b: Seq<Edge>, v: int, len: int)
    requires
        len <= a.len(),
        len <= b.len(),
        len <= e1.len(),
        len <= e2.len(),
        forall|k: int| 0 <= k < len ==> #[trigger] a[k] == b[k] && e1[k] == e2[k],
    ensures
        sum_at(e1, a, v, len) == sum_at(e2, b, v, len),
    decreases len,
{
    if len > 0 {
        assert(a[len - 1] == b[len - 1] && e1[len - 1] == e2[len - 1]);
        lemma_sum_at_prefix(e1, a, e2, b, v, len - 1);
    }
}

/// No edge ending at `v`, no flow at `v`.
proof fn lemma_sum_at_absent(ends: Seq<usize>, edges: Seq<Edge>, v: int, len: int)
    requires
        len <= ends.len(),
        forall|k: int| 0 <= k < len ==> #[trigger] ends[k] != v,
    ensures
        sum_at(ends, edges, v, len) == 0,
    decreases len,
{
    if len > 0 {
        lemma_sum_at_absent(ends, edges, v, len - 1);
    }
}

/// With every flow zero, every flow sum is zero.
proof fn lemma_sum_at_zero(ends: Seq<usize>, edges: Seq<Edge>, v: int, len: int)
    requires
        len <= edges.len(),
        forall|k: int| 0 <= k < len ==> #[trigger] edges[k].flow == 0,
    ensures
        sum_at(ends, edges, v, len) == 0,
    decreases len,
{
    if len > 0 {
        lemma_sum_at_zero(ends, edges, v, len - 1);
    }
}

/// Changing edge `k` moves the spare capacity by the change of its own.
proof fn lemma_residual_update(edges: Seq<Edge>, len: int, k: int, e: Edge)
    requires
        0 <= k < len <= edges.len(),
    ensures
        residual_sum(edges.update(k, e), len) == residual_sum(edges, len) + (e.capacity - e.flow)
            - (edges[k].capacity - edges[k].flow),
    decreases len,
{
    if len - 1 > k {
        lemma_residual_update(edges, len - 1, k, e);
    } else {
        lemma_residual_same(edges, edges.update(k, e), len - 1);
    }
}

proof fn lemma_residual_same(a: Seq<Edge>, b: Seq<Edge>, len: int)
    requires
        len <= a.len(),
        len <= b.len(),
        forall|k: int| 0 <= k < len ==> #[trigger] a[k] == b[k],
    ensures
        residual_sum(a, len) == residual_sum(b, len),
    decreases len,
{
    if len > 0 {
        lemma_residual_same(a, b, len - 1);
    }
}

/// Spare capacity is never negative while flows respect capacities.
proof fn lemma_residual_nonneg(edges: Seq<Edge>, len: int)
    requires
        len <= edges.len(),
        forall|k: int| 0 <= k < len ==> #[trigger] edges[k].flow <= edges[k].capacity,
    ensures
        residual_sum(edges, len) >= 0,
    decreases len,
{
    if len > 0 {
        lemma_residual_nonneg(edges, len - 1);
    }
}

impl Graph {
    pub closed spec fn spec_nodes(&self) -> Seq<Point> {
        self.nodes@
    }

    pub closed spec fn spec_source(&self) -> Point {
        self.source
    }

    pub closed spec fn spec_sink(&self) -> Point {
        self.sink
    }

    pub closed spec fn spec_tails(&self) -> Seq<usize> {
        self.tails@
    }

    pub closed spec fn spec_heads(&self) -> Seq<usize> {
        self.heads@
    }

    pub closed spec fn spec_edges(&self) -> Seq<Edge> {
        self.edges@
    }

    /// Nodes are distinct, every edge joins two known nodes and stays within
    /// its capacity.
    pub open spec fn wf(&self) -> bool {
        let nodes = self.spec_nodes();
        let m = self.spec_edges().len();
        &&& self.spec_tails().len() == m
        &&& self.spec_heads().len() == m
        &&& forall|i: int, j: int| 0 <= i < j < nodes.len() ==> nodes[i] != nodes[j]
        &&& forall|k: int| 0 <= k < m ==> #[trigger] self.spec_tails()[k] < nodes.len()
        &&& forall|k: int|
            0 <= k < m ==> #[trigger] self.spec_heads()[k] < nodes.len() && nodes[self.spec_heads()[k] as int]
                == self.spec_edges()[k].to
        &&& forall|k: int| 0 <= k < m ==> #[trigger] self.spec_edges()[k].flow <= self.spec_edges()[k].capacity
    }

    /// In a well-formed network no edge carries more than its capacity.
    pub proof fn lemma_capacity_respected(&self)
        requires
            self.wf(),
        ensures
            forall|k: int|
                0 <= k < self.spec_edges().len() ==> #[trigger] self.spec_edges()[k].flow
                    <= self.spec_edges()[k].capacity,
    {
    }

    /// The number of `p` among the nodes.
    pub open spec fn index_of(&self, p: Point) -> int {
        choose|i: int| 0 <= i < self.spec_nodes().len() && self.spec_nodes()[i] == p
    }

    /// The outgoing edges of `p` in the order they were added; none for an unknown node.
    pub open spec fn edges_of(&self, p: Point) -> Seq<Edge> {
        if self.spec_nodes().contains(p) {
            out_edges(self.spec_tails(), self.spec_edges(), self.index_of(p), self.spec_edges().len() as int)
        } else {
            seq![]
        }
    }

    /// The flow leaving node `v`.
    pub open spec fn outflow(&self, v: int) -> int {
        sum_at(self.spec_tails(), self.spec_edges(), v, self.spec_edges().len() as int)
    }

    /// The flow entering node `v`.
    pub open spec fn inflow(&self, v: int) -> int {
        sum_at(self.spec_heads(), self.spec_edges(), v, self.spec_edges().len() as int)
    }

    /// Every node other than the source and the sink passes on what it receives.
    pub open spec fn conserves(&self) -> bool {
        forall|v: int|
            0 <= v < self.spec_nodes().len() && self.spec_nodes()[v] != self.spec_source()
                && self.spec_nodes()[v] != self.spec_sink() ==> #[trigger] self.inflow(v) == self.outflow(v)
    }

    /// Creates an empty network with the given source and sink.
    pub fn new(source: Point, sink: Point) -> (r: Self)
        ensures
            r.wf(),
            r.spec_source() == source,
            r.spec_sink() == sink,
            r.spec_nodes() == Seq::<Point>::empty(),
            r.spec_edges() == Seq::<Edge>::empty(),
            r.conserves(),
    {
        Graph { nodes: Vec::new(), tails: Vec::new(), heads: Vec::new(), edges: Vec::new(), source, sink }
    }

    /// The number of `p` among the nodes, if it is one.
    fn find_node(&self, p: Point) -> (r: Option<usize>)
        requires
            self.wf(),
        ensures
            match r {
                Some(i) => i < self.spec_nodes().len() && self.spec_nodes()[i as int] == p
                    && self.index_of(p) == i,
                None => !self.spec_nodes().contains(p),
            },
    {
        let mut i: usize = 0;
        while i < self.nodes.len()
            invariant
                self.wf(),
                i <= self.nodes@.len(),
                forall|j: int| 0 <= j < i ==> self.nodes@[j] != p,
            decreases self.nodes@.len() - i,
        {
            if self.nodes[i] == p {
                proof {
                    let k = self.index_of(p);
                    assert(0 <= k < self.spec_nodes().len() && self.spec_nodes()[k] == p);
                    if k != i {
                        assert(self.spec_nodes()[i as int] == p);
                    }
                }
                return Some(i);
            }
            i = i + 1;
        }
        None
    }

    /// Makes `node` a node of the network if it is not one yet.
    pub fn add_node(&mut self, node: Point)
        requires
            old(self).wf(),
        ensures
            final(self).wf(),
            final(self).spec_source() == old(self).spec_source(),
            final(self).spec_sink() == old(self).spec_sink(),
            final(self).spec_nodes() == if old(self).spec_nodes().contains(node) {
                old(self).spec_nodes()
            } else {
                old(self).spec_nodes().push(node)
            },
            final(self).spec_edges() == old(self).spec_edges(),
            final(self).spec_tails() == old(self).spec_tails(),
            final(self).spec_heads() == old(self).spec_heads(),
    {
        match self.find_node(node) {
            Some(_) => {},
            None => {
                self.nodes.push(node);
                proof {
                    assert forall|i: int, j: int| 0 <= i < j < self.nodes@.len() implies self.nodes@[i] != self.nodes@[j] by {
                        if j == self.nodes@.len() - 1 {
                            assert(self.nodes@[i] == old(self).nodes@[i]);
                            if self.nodes@[i] == node {
                                assert(old(self).nodes@.contains(node));
                            }
                        }
                    }
                }
            },
        }
    }

    /// Adds a directed edge with no flow, making both ends nodes first.
    pub fn add_edge(&mut self, from: Point, to: Point, capacity: u64, cost: u64)
        requires
            old(self).wf(),
        ensures
            final(self).wf(),
            final(self).spec_source() == old(self).spec_source(),
            final(self).spec_sink() == old(self).spec_sink(),
            ({
                let n1 = if old(self).spec_nodes().contains(from) {
                    old(self).spec_nodes()
                } else {
                    old(self).spec_nodes().push(from)
                };
                final(self).spec_nodes() == if n1.contains(to) {
                    n1
                } else {
                    n1.push(to)
                }
            }),
            final(self).spec_edges() == old(self).spec_edges().push(
                Edge { to, capacity, cost, flow: 0 },
            ),
            final(self).spec_tails() == old(self).spec_tails().push(
                final(self).index_of(from) as usize,
            ),
            final(self).spec_heads() == old(self).spec_heads().push(
                final(self).index_of(to) as usize,
            ),
            final(self).spec_nodes()[final(self).index_of(from)] == from,
            final(self).spec_nodes()[final(self).index_of(to)] == to,
            old(self).conserves() ==> final(self).conserves(),
    {
        self.add_node(from);
        let ghost n1 = self.nodes@;
        self.add_node(to);
        proof {
            if !n1.contains(to) {
                assert(self.nodes@[self.nodes@.len() - 1] == to);
            } else {
                let i = choose|i: int| 0 <= i < n1.len() && n1[i] == to;
                assert(self.nodes@[i] == to);
            }
        }
        let t = match self.find_node(from) {
            Some(i) => i,
            None => {
                proof {
                    assert(self.nodes@.contains(from)) by {
                        if !old(self).nodes@.contains(from) {
                            let n1 = old(self).nodes@.push(from);
                            assert(n1[n1.len() - 1] == from);
                            if !n1.contains(to) {
                                assert(self.nodes@[n1.len() - 1] == from);
                            }
                        } else {
                            let i = choose|i: int| 0 <= i < old(self).nodes@.len() && old(self).nodes@[i] == from;
                            assert(self.nodes@[i] == from);
                        }
                    }
                }
                return;
            },
        };
        let h = match self.find_node(to) {
            Some(i) => i,
            None => {
                return;
            },
        };
        self.tails.push(t);
        self.heads.push(h);
        self.edges.push(Edge { to, capacity, cost, flow: 0 });
        proof {
            let len = old(self).edges@.len() as int;
            let on = old(self).nodes@.len() as int;
            assert forall|v: int| #[trigger] self.inflow(v) == (if v < on { old(self).inflow(v) } else { 0 })
                && self.outflow(v) == (if v < on { old(self).outflow(v) } else { 0 }) by {
                lemma_sum_at_prefix(self.heads@, self.edges@, old(self).heads@, old(self).edges@, v, len);
                lemma_sum_at_prefix(self.tails@, self.edges@, old(self).tails@, old(self).edges@, v, len);
                if v >= on {
                    assert forall|k: int| 0 <= k < len implies #[trigger] old(self).heads@[k] != v by {
                        assert(old(self).spec_heads()[k] < old(self).spec_nodes().len());
                    }
                    assert forall|k: int| 0 <= k < len implies #[trigger] old(self).tails@[k] != v by {
                        assert(old(self).spec_tails()[k] < old(self).spec_nodes().len());
                    }
                    lemma_sum_at_absent(old(self).heads@, old(self).edges@, v, len);
                    lemma_sum_at_absent(old(self).tails@, old(self).edges@, v, len);
                }
            }
            if old(self).conserves() {
                assert forall|v: int|
                    0 <= v < self.spec_nodes().len() && self.spec_nodes()[v] != self.spec_source()
                        && self.spec_nodes()[v] != self.spec_sink() implies #[trigger] self.inflow(v) == self.outflow(v) by {
                    if v < old(self).nodes@.len() {
                        assert(self.nodes@[v] == old(self).nodes@[v]);
                        assert(old(self).inflow(v) == old(self).outflow(v));
                    }
                }
            }
        }
    }

    /// The outgoing edges of `node`, in the order they were added; none for an
    /// unknown node.
    pub fn get_edges(&self, node: &Point) -> (r: Vec<Edge>)
        requires
            self.wf(),
        ensures
            r@ == self.edges_of(*node),
    {
        match self.find_node(*node) {
            None => Vec::new(),
            Some(i) => {
                let mut r: Vec<Edge> = Vec::new();
                let mut k: usize = 0;
                while k < self.edges.len()
                    invariant
                        self.wf(),
                        k <= self.edges@.len(),
                        r@ == out_edges(self.tails@, self.edges@, i as int, k as int),
                    decreases self.edges@.len() - k,
                {
                    if self.tails[k] == i {
                        r.push(self.edges[k]);
                    }
                    k = k + 1;
                }
                r
            },
        }
    }

    /// Sets every edge's flow to zero, keeping everything else.
    pub fn reset_flow(&mut self)
        requires
            old(self).wf(),
        ensures
            final(self).wf(),
            final(self).conserves(),
            final(self).spec_source() == old(self).spec_source(),
            final(self).spec_sink() == old(self).spec_sink(),
            final(self).spec_nodes() == old(self).spec_nodes(),
            final(self).spec_tails() == old(self).spec_tails(),
            final(self).spec_heads() == old(self).spec_heads(),
            final(self).spec_edges().len() == old(self).spec_edges().len(),
            forall|k: int|
                0 <= k < old(self).spec_edges().len() ==> #[trigger] final(self).spec_edges()[k] == (Edge {
                    flow: 0,
                    ..old(self).spec_edges()[k]
                }),
    {
        let mut k: usize = 0;
        while k < self.edges.len()
            invariant
                self.nodes@ == old(self).nodes@,
                self.tails@ == old(self).tails@,
                self.heads@ == old(self).heads@,
                self.source == old(self).source,
                self.sink == old(self).sink,
                self.edges@.len() == old(self).edges@.len(),
                old(self).wf(),
                k <= self.edges@.len(),
                forall|j: int| 0 <= j < k ==> #[trigger] self.edges@[j] == (Edge { flow: 0, ..old(self).edges@[j] }),
                forall|j: int| k <= j < self.edges@.len() ==> #[trigger] self.edges@[j] == old(self).edges@[j],
            decreases self.edges@.len() - k,
        {
            let e = self.edges[k];
            self.edges.set(k, Edge { flow: 0, ..e });
            k = k + 1;
        }
        proof {
            assert forall|k: int| 0 <= k < self.edges@.len() implies #[trigger] self.spec_heads()[k] < self.spec_nodes().len()
                && self.spec_nodes()[self.spec_heads()[k] as int] == self.spec_edges()[k].to by {
                assert(self.edges@[k].to == old(self).edges@[k].to);
                assert(old(self).spec_heads()[k] < old(self).spec_nodes().len());
            }
            assert forall|k: int| 0 <= k < self.edges@.len() implies #[trigger] self.spec_tails()[k] < self.spec_nodes().len() by {
                assert(old(self).spec_tails()[k] < old(self).spec_nodes().len());
            }
            assert forall|k: int| 0 <= k < self.edges@.len() implies #[trigger] self.spec_edges()[k].flow <= self.spec_edges()[k].capacity by {
                assert(self.edges@[k].flow == 0);
            }
            assert forall|v: int| 0 <= v < self.spec_nodes().len() implies #[trigger] self.inflow(v) == self.outflow(v) by {
                lemma_sum_at_zero(self.heads@, self.edges@, v, self.edges@.len() as int);
                lemma_sum_at_zero(self.tails@, self.edges@, v, self.edges@.len() as int);
            }
        }
    }

    /// Adds `amount` to the cost of the first edge from `from` to `to`, saturating
    /// at `u64::MAX`. Returns whether there is such an edge.
    pub fn add_cost(&mut self, from: Point, to: Point, amount: u64) -> (r: bool)
        requires
            old(self).wf(),
        ensures
            final(self).wf(),
            final(self).spec_source() == old(self).spec_source(),
            final(self).spec_sink() == old(self).spec_sink(),
            final(self).spec_nodes() == old(self).spec_nodes(),
            final(self).spec_tails() == old(self).spec_tails(),
            final(self).spec_heads() == old(self).spec_heads(),
            final(self).conserves() == old(self).conserves(),
            !r ==> final(self).spec_edges() == old(self).spec_edges() && forall|k: int|
                0 <= k < old(self).spec_edges().len() ==> !#[trigger] old(self).joins(k, from, to),
            r ==> exists|k: int|
                0 <= k < old(self).spec_edges().len() && #[trigger] old(self).joins(k, from, to)
                    && (forall|j: int| 0 <= j < k ==> !old(self).joins(j, from, to))
                    && final(self).spec_edges() == old(self).spec_edges().update(
                    k,
                    Edge {
                        cost: if old(self).spec_edges()[k].cost + amount > u64::MAX {
                            u64::MAX
                        } else {
                            (old(self).spec_edges()[k].cost + amount) as u64
                        },
                        ..old(self).spec_edges()[k]
                    },
                ),
    {
        let mut k: usize = 0;
        while k < self.edges.len()
            invariant
                self.wf(),
                *self == *old(self),
                k <= self.edges@.len(),
                forall|j: int| 0 <= j < k ==> !#[trigger] self.joins(j, from, to),
            decreases self.edges@.len() - k,
        {
            if self.edges[k].to == to && self.nodes[self.tails[k]] == from {
                let e = self.edges[k];
                let ghost old_edges = self.edges@;
                self.edges.set(k, Edge { cost: e.cost.saturating_add(amount), ..e });
                proof {
                    let n = self.edges@.len() as int;
                    assert forall|v: int| #[trigger] self.inflow(v) == sum_at(self.heads@, old_edges, v, n) by {
                        lemma_sum_at_update(self.heads@, old_edges, v, n, k as int, self.edges@[k as int]);
                    }
                    assert forall|v: int| #[trigger] self.outflow(v) == sum_at(self.tails@, old_edges, v, n) by {
                        lemma_sum_at_update(self.tails@, old_edges, v, n, k as int, self.edges@[k as int]);
                    }
                    assert forall|v: int| #[trigger] self.inflow(v) == old(self).inflow(v) && self.outflow(v) == old(self).outflow(v) by {
                        assert(self.inflow(v) == sum_at(self.heads@, old_edges, v, n));
                        assert(self.outflow(v) == sum_at(self.tails@, old_edges, v, n));
                    }
                    assert(self.spec_nodes() == old(self).spec_nodes());
                    assert(self.spec_source() == old(self).spec_source());
                    assert(self.spec_sink() == old(self).spec_sink());
                    if old(self).conserves() {
                        assert forall|v: int|
                            0 <= v < self.spec_nodes().len() && self.spec_nodes()[v] != self.spec_source()
                                && self.spec_nodes()[v] != self.spec_sink() implies #[trigger] self.inflow(v) == self.outflow(v) by {
                            assert(old(self).inflow(v) == old(self).outflow(v));
                        }
                    }
                    if self.conserves() {
                        assert forall|v: int|
                            0 <= v < old(self).spec_nodes().len() && old(self).spec_nodes()[v] != old(self).spec_source()
                                && old(self).spec_nodes()[v] != old(self).spec_sink() implies #[trigger] old(self).inflow(v) == old(self).outflow(v) by {
                            assert(self.inflow(v) == self.outflow(v));
                        }
                    }
                    assert(old(self).joins(k as int, from, to));
                    assert(self.edges@ == old(self).edges@.update(
                        k as int,
                        Edge {
                            cost: if old(self).edges@[k as int].cost + amount > u64::MAX {
                                u64::MAX
                            } else {
                                (old(self).edges@[k as int].cost + amount) as u64
                            },
                            ..old(self).edges@[k as int]
                        },
                    ));
                }
                return true;
            }
            k = k + 1;
        }
        false
    }

    /// Edge `k` runs from `from` to `to`.
    pub open spec fn joins(&self, k: int, from: Point, to: Point) -> bool {
        self.spec_edges()[k].to == to && self.spec_nodes()[self.spec_tails()[k] as int] == from
    }

    /// Edge `k` can take more flow.
    pub open spec fn has_room(&self, k: int) -> bool {
        self.spec_edges()[k].flow < self.spec_edges()[k].capacity
    }

    /// Node `j` of the edge path `path`: the tail of its `j`-th edge, or the head
    /// of its last edge for `j == path.len()`.
    pub open spec fn path_node(&self, path: Seq<usize>, j: int) -> int {
        if j < path.len() {
            self.spec_tails()[path[j] as int] as int
        } else {
            self.spec_heads()[path[path.len() - 1] as int] as int
        }
    }

    /// `path` is a walk from the source to the sink along edges with spare capacity.
    pub open spec fn is_residual_walk(&self, path: Seq<usize>) -> bool {
        &&& path.len() >= 1
        &&& forall|j: int|
            0 <= j < path.len() ==> #[trigger] path[j] < self.spec_edges().len() && self.has_room(
                path[j] as int,
            )
        &&& self.spec_nodes()[self.path_node(path, 0)] == self.spec_source()
        &&& self.spec_nodes()[self.path_node(path, path.len() as int)] == self.spec_sink()
        &&& forall|j: int|
            0 <= j < path.len() - 1 ==> #[trigger] self.spec_heads()[path[j] as int]
                == self.spec_tails()[path[j + 1] as int]
    }

    /// An augmenting path: a residual walk that visits no node twice.
    pub open spec fn is_augmenting_path(&self, path: Seq<usize>) -> bool {
        &&& self.is_residual_walk(path)
        &&& forall|a: int, b: int|
            0 <= a < b <= path.len() ==> self.path_node(path, a) != self.path_node(path, b)
    }

    /// The least spare capacity among the first `len` edges of `path`; `u64::MAX` for none.
    pub open spec fn bottleneck(&self, path: Seq<usize>, len: int) -> int
        decreases len,
    {
        if len <= 0 {
            u64::MAX as int
        } else {
            let rest = self.bottleneck(path, len - 1);
            let e = self.spec_edges()[path[len - 1] as int];
            if e.capacity - e.flow < rest {
                e.capacity - e.flow
            } else {
                rest
            }
        }
    }

    /// The points that `path` visits, from the source to the sink.
    pub open spec fn path_points(&self, path: Seq<usize>) -> Seq<Point> {
        Seq::new((path.len() + 1) as nat, |j: int| self.spec_nodes()[self.path_node(path, j)])
    }

    /// The edges after `f` more units flow along every edge of `path`.
    pub open spec fn augmented(&self, path: Seq<usize>, f: int) -> Seq<Edge> {
        Seq::new(
            self.spec_edges().len(),
            |k: int|
                if path.contains(k as usize) {
                    Edge { flow: (self.spec_edges()[k].flow + f) as u64, ..self.spec_edges()[k] }
                } else {
                    self.spec_edges()[k]
                },
        )
    }

    /// `path` leads from node `a` to node `b` along edges with spare capacity.
    pub open spec fn is_walk(&self, path: Seq<usize>, a: int, b: int) -> bool {
        &&& path.len() >= 1
        &&& forall|j: int|
            0 <= j < path.len() ==> #[trigger] path[j] < self.spec_edges().len() && self.has_room(
                path[j] as int,
            )
        &&& self.spec_tails()[path[0] as int] == a
        &&& self.spec_heads()[path[path.len() - 1] as int] == b
        &&& forall|j: int|
            0 <= j < path.len() - 1 ==> #[trigger] self.spec_heads()[path[j] as int]
                == self.spec_tails()[path[j + 1] as int]
    }

    /// What one step along edge `k` costs: its cost, or one when counting edges.
    pub open spec fn step_cost(&self, unit: bool, k: int) -> int {
        if unit {
            1
        } else {
            self.spec_edges()[k].cost as int
        }
    }

    /// The total cost of the first `len` edges of `path`, counting each edge as
    /// one when `unit` holds.
    pub open spec fn walk_cost(&self, unit: bool, path: Seq<usize>, len: int) -> int
        decreases len,
    {
        if len <= 0 {
            0
        } else {
            self.walk_cost(unit, path, len - 1) + self.step_cost(unit, path[len - 1] as int)
        }
    }

    /// `d` is no more than the cost of any walk from node `s` to node `v`.
    #[verifier::opaque]
    spec fn dist_optimal(&self, unit: bool, s: int, v: int, d: int) -> bool {
        forall|w: Seq<usize>| #[trigger] self.is_walk(w, s, v) ==> d <= self.walk_cost(unit, w, w.len() as int)
    }

    proof fn lemma_walk_cost_prefix(&self, unit: bool, a: Seq<usize>, b: Seq<usize>, len: int)
        requires
            0 <= len <= a.len(),
            len <= b.len(),
            forall|j: int| 0 <= j < len ==> #[trigger] a[j] == b[j],
        ensures
            self.walk_cost(unit, a, len) == self.walk_cost(unit, b, len),
        decreases len,
    {
        if len > 0 {
            assert(a[len - 1] == b[len - 1]);
            self.lemma_walk_cost_prefix(unit, a, b, len - 1);
        }
    }

    proof fn lemma_walk_cost_mono(&self, unit: bool, a: Seq<usize>, i: int, j: int)
        requires
            0 <= i <= j,
        ensures
            self.walk_cost(unit, a, i) <= self.walk_cost(unit, a, j),
        decreases j - i,
    {
        if i < j {
            self.lemma_walk_cost_mono(unit, a, i, j - 1);
        }
    }

    /// The cost of the edges of `rev` taken in reverse order.
    proof fn lemma_walk_cost_reversed(&self, unit: bool, path: Seq<usize>, rev: Seq<usize>, k: int)
        requires
            path.len() == rev.len(),
            0 <= k <= path.len(),
            forall|x: int| 0 <= x < path.len() ==> #[trigger] path[x] == rev[rev.len() - 1 - x],
        ensures
            self.walk_cost(unit, path, k) == self.walk_cost(unit, rev, rev.len() as int) - self.walk_cost(unit, 
                rev,
                rev.len() - k,
            ),
        decreases k,
    {
        if k > 0 {
            self.lemma_walk_cost_reversed(unit, path, rev, k - 1);
            assert(path[k - 1] == rev[rev.len() - 1 - (k - 1)]);
        }
    }

    /// What holds between the choices of the next node to settle while searching
    /// from node `s` for node `t`.
    spec fn search_inv(
        &self, unit: bool,
        s: int,
        t: int,
        dist: Seq<u128>,
        reached: Seq<bool>,
        settled: Seq<bool>,
        ord: Seq<usize>,
        pedge: Seq<usize>,
        nsettled: int,
    ) -> bool {
        let n = self.spec_nodes().len() as int;
        let m = self.spec_edges().len() as int;
        &&& dist.len() == n
        &&& reached.len() == n
        &&& settled.len() == n
        &&& ord.len() == n
        &&& pedge.len() == n
        &&& 0 <= s < n
        &&& 0 <= t < n
        &&& s != t
        &&& reached[s]
        &&& count_true(settled) == nsettled
        &&& !settled[t]
        &&& forall|i: int| 0 <= i < n && #[trigger] settled[i] ==> reached[i] && ord[i] < nsettled
        &&& forall|i: int|
            0 <= i < n && #[trigger] reached[i] && i != s ==> {
                &&& pedge[i] < m
                &&& self.spec_heads()[pedge[i] as int] == i
                &&& settled[self.spec_tails()[pedge[i] as int] as int]
                &&& self.has_room(pedge[i] as int)
                &&& dist[i] == dist[self.spec_tails()[pedge[i] as int] as int] + self.step_cost(unit, pedge[i] as int)
            }
        &&& dist[s] == 0
        &&& forall|i: int| 0 <= i < n && #[trigger] reached[i] ==> dist[i] <= nsettled * 0xffff_ffff_ffff_ffff
        &&& forall|i: int| 0 <= i < n && #[trigger] settled[i] ==> self.dist_optimal(unit, s, i, dist[i] as int)
        &&& forall|i: int|
            0 <= i < n && #[trigger] settled[i] && i != s ==> ord[self.spec_tails()[pedge[i] as int] as int]
                < ord[i]
        &&& forall|k: int|
            #![trigger self.spec_tails()[k]]
            0 <= k < m && settled[self.spec_tails()[k] as int] && self.has_room(k) ==> reached[self.spec_heads()[k] as int]
                && (settled[self.spec_heads()[k] as int] || dist[self.spec_heads()[k] as int] <= dist[self.spec_tails()[k] as int]
                + self.step_cost(unit, k))
    }

    /// With no open node left, no residual walk reaches the sink.
    proof fn lemma_no_walk(
        &self, unit: bool,
        s: int,
        t: int,
        dist: Seq<u128>,
        reached: Seq<bool>,
        settled: Seq<bool>,
        ord: Seq<usize>,
        pedge: Seq<usize>,
        nsettled: int,
        path: Seq<usize>,
    )
        requires
            self.wf(),
            self.search_inv(unit, s, t, dist, reached, settled, ord, pedge, nsettled),
            self.spec_nodes()[s] == self.spec_source(),
            self.spec_nodes()[t] == self.spec_sink(),
            forall|i: int| 0 <= i < self.spec_nodes().len() && #[trigger] reached[i] ==> settled[i],
        ensures
            !self.is_residual_walk(path),
    {
        if self.is_residual_walk(path) {
            let m = path.len() as int;
            assert(path[0] < self.spec_edges().len());
            assert(self.path_node(path, 0) == s);
            assert forall|j: int| 0 <= j <= m implies #[trigger] reached[self.path_node(path, j)] by {
                self.lemma_walk_reached(unit, s, t, dist, reached, settled, ord, pedge, nsettled, path, j);
            }
            assert(path[m - 1] < self.spec_edges().len());
            assert(reached[self.path_node(path, m)]);
            assert(self.path_node(path, m) == t);
        }
    }

    proof fn lemma_walk_reached(
        &self, unit: bool,
        s: int,
        t: int,
        dist: Seq<u128>,
        reached: Seq<bool>,
        settled: Seq<bool>,
        ord: Seq<usize>,
        pedge: Seq<usize>,
        nsettled: int,
        path: Seq<usize>,
        j: int,
    )
        requires
            self.wf(),
            self.search_inv(unit, s, t, dist, reached, settled, ord, pedge, nsettled),
            self.is_residual_walk(path),
            self.path_node(path, 0) == s,
            forall|i: int| 0 <= i < self.spec_nodes().len() && #[trigger] reached[i] ==> settled[i],
            0 <= j <= path.len(),
        ensures
            reached[self.path_node(path, j)],
        decreases j,
    {
        if j > 0 {
            let i = j - 1;
            self.lemma_walk_reached(unit, s, t, dist, reached, settled, ord, pedge, nsettled, path, i);
            let k = path[i] as int;
            assert(path[i] < self.spec_edges().len() && self.has_room(k));
            assert(self.spec_tails()[k] < self.spec_nodes().len());
            assert(settled[self.spec_tails()[k] as int]);
            assert(reached[self.spec_heads()[k] as int]);
            if j < path.len() {
                assert(self.spec_heads()[path[i] as int] == self.spec_tails()[path[i + 1] as int]);
            }
        }
    }

    /// Along a walk from `s`, the first node not settled is reached, at no more
    /// than the cost of the walk up to it.
    #[verifier::rlimit(40)]
    proof fn lemma_first_open_node(
        &self, unit: bool,
        s: int,
        dist: Seq<u128>,
        reached: Seq<bool>,
        settled: Seq<bool>,
        w: Seq<usize>,
        u: int,
        i: int,
    ) -> (k: int)
        requires
            self.wf(),
            dist.len() == self.spec_nodes().len(),
            reached.len() == self.spec_nodes().len(),
            settled.len() == self.spec_nodes().len(),
            forall|j: int|
                0 <= j < self.spec_nodes().len() && #[trigger] settled[j] ==> self.dist_optimal(unit, s, j, dist[j] as int),
            forall|k: int|
                #![trigger self.spec_tails()[k]]
                0 <= k < self.spec_edges().len() && settled[self.spec_tails()[k] as int] && self.has_room(k)
                    ==> reached[self.spec_heads()[k] as int] && (settled[self.spec_heads()[k] as int]
                    || dist[self.spec_heads()[k] as int] <= dist[self.spec_tails()[k] as int]
                    + self.step_cost(unit, k)),
            self.is_walk(w, s, u),
            0 <= u < self.spec_nodes().len(),
            !settled[u],
            0 <= i <= w.len(),
            reached[self.path_node(w, i)],
            dist[self.path_node(w, i)] <= self.walk_cost(unit, w, i),
        ensures
            i <= k <= w.len(),
            reached[self.path_node(w, k)],
            !settled[self.path_node(w, k)],
            dist[self.path_node(w, k)] <= self.walk_cost(unit, w, k),
        decreases w.len() - i,
    {
        let x = self.path_node(w, i);
        if !settled[x] {
            i
        } else {
            let len = w.len() as int;
            assert(i < len);
            let e = w[i] as int;
            assert(w[i] < self.spec_edges().len() && self.has_room(e));
            assert(self.spec_tails()[e] < self.spec_nodes().len());
            assert(self.spec_heads()[e] < self.spec_nodes().len());
            let y = self.path_node(w, i + 1);
            if i + 1 < len {
                assert(self.spec_heads()[w[i] as int] == self.spec_tails()[w[i + 1] as int]);
            }
            assert(self.spec_heads()[e] == y);
            assert(reached[y]);
            if settled[y] {
                let pre = w.subrange(0, i + 1);
                assert(self.is_walk(pre, s, y)) by {
                    assert forall|j: int| 0 <= j < pre.len() - 1 implies #[trigger] self.spec_heads()[pre[j] as int]
                        == self.spec_tails()[pre[j + 1] as int] by {
                        assert(self.spec_heads()[w[j] as int] == self.spec_tails()[w[j + 1] as int]);
                    }
                    assert forall|j: int| 0 <= j < pre.len() implies #[trigger] pre[j] < self.spec_edges().len()
                        && self.has_room(pre[j] as int) by {
                        assert(w[j] < self.spec_edges().len() && self.has_room(w[j] as int));
                    }
                }
                assert(self.dist_optimal(unit, s, y, dist[y] as int));
                reveal(Graph::dist_optimal);
                assert(dist[y] <= self.walk_cost(unit, pre, pre.len() as int));
                self.lemma_walk_cost_prefix(unit, pre, w, i + 1);
            }
            self.lemma_first_open_node(unit, s, dist, reached, settled, w, u, i + 1)
        }
    }

    /// The open node of least distance is settled at the cost of a cheapest walk.
    proof fn lemma_selected_optimal_node(
        &self, unit: bool,
        s: int,
        t: int,
        dist: Seq<u128>,
        reached: Seq<bool>,
        settled: Seq<bool>,
        ord: Seq<usize>,
        pedge: Seq<usize>,
        nsettled: int,
        u: int,
    )
        requires
            self.wf(),
            self.search_inv(unit, s, t, dist, reached, settled, ord, pedge, nsettled),
            0 <= u < self.spec_nodes().len(),
            reached[u],
            !settled[u],
            forall|j: int|
                0 <= j < self.spec_nodes().len() && #[trigger] reached[j] && !settled[j] ==> dist[u] <= dist[j],
        ensures
            self.dist_optimal(unit, s, u, dist[u] as int),
    {
        reveal(Graph::dist_optimal);
        assert forall|w: Seq<usize>| #[trigger] self.is_walk(w, s, u) implies dist[u] <= self.walk_cost(unit, 
            w,
            w.len() as int,
        ) by {
            assert(w[0] < self.spec_edges().len());
            assert(self.path_node(w, 0) == s);
            let k = self.lemma_first_open_node(unit, s, dist, reached, settled, w, u, 0);
            self.lemma_walk_cost_mono(unit, w, k, w.len() as int);
            let y = self.path_node(w, k);
            if k < w.len() {
                assert(w[k] < self.spec_edges().len());
                assert(self.spec_tails()[w[k] as int] < self.spec_nodes().len());
            }
            assert(0 <= y < self.spec_nodes().len());
            assert(reached[y] && !settled[y]);
        }
    }

    /// The cheapest walk from the source to the sink along edges with spare
    /// capacity, found by Dijkstra's search, as a list of edge numbers. With
    /// `unit` every edge counts as one, so the walk has the fewest edges, as a
    /// breadth-first search would find. The source must differ from the sink:
    /// both callers answer that case before searching.
    fn find_cheapest_path_dijkstra(&self, unit: bool) -> (r: Option<Vec<usize>>)
        requires
            self.wf(),
            self.spec_source() != self.spec_sink(),
        ensures
            match r {
                Some(p) => self.is_augmenting_path(p@) && forall|q: Seq<usize>| #[trigger]
                    self.is_residual_walk(q) ==> self.walk_cost(unit, p@, p@.len() as int) <= self.walk_cost(unit, 
                    q,
                    q.len() as int,
                ),
                None => forall|p: Seq<usize>| !self.is_residual_walk(p),
            },
    {
        let s = match self.find_node(self.source) {
            Some(i) => i,
            None => {
                proof {
                    assert forall|p: Seq<usize>| !self.is_residual_walk(p) by {
                        if self.is_residual_walk(p) {
                            assert(p[0] < self.spec_edges().len());
                            assert(self.spec_nodes().contains(self.source));
                        }
                    }
                }
                return None;
            },
        };
        let t = match self.find_node(self.sink) {
            Some(i) => i,
            None => {
                proof {
                    assert forall|p: Seq<usize>| !self.is_residual_walk(p) by {
                        if self.is_residual_walk(p) {
                            assert(p[p.len() - 1] < self.spec_edges().len());
                            assert(self.spec_nodes().contains(self.sink));
                        }
                    }
                }
                return None;
            },
        };
        let n = self.nodes.len();
        let m = self.edges.len();
        let mut dist: Vec<u128> = Vec::new();
        let mut reached: Vec<bool> = Vec::new();
        let mut settled: Vec<bool> = Vec::new();
        let mut ord: Vec<usize> = Vec::new();
        let mut pedge: Vec<usize> = Vec::new();
        let mut i: usize = 0;
        while i < n
            invariant
                i <= n,
                dist@.len() == i,
                reached@.len() == i,
                settled@.len() == i,
                ord@.len() == i,
                pedge@.len() == i,
                forall|j: int| 0 <= j < i ==> !reached@[j] && !settled@[j] && dist@[j] == 0,
            decreases n - i,
        {
            dist.push(0);
            reached.push(false);
            settled.push(false);
            ord.push(0);
            pedge.push(0);
            i = i + 1;
        }
        reached.set(s, true);
        let mut nsettled: usize = 0;
        proof {
            lemma_count_true_none(settled@);
            assert(s != t) by {
                if s == t {
                    assert(self.nodes@[s as int] == self.source);
                }
            }
        }
        loop
            invariant
                self.wf(),
                n == self.spec_nodes().len(),
                m == self.spec_edges().len(),
                self.spec_nodes()[s as int] == self.spec_source(),
                self.spec_nodes()[t as int] == self.spec_sink(),
                self.search_inv(unit, s as int, t as int, dist@, reached@, settled@, ord@, pedge@, nsettled as int),
            decreases n - nsettled,
        {
            let mut best: usize = n;
            let mut k: usize = 0;
            while k < n
                invariant
                    k <= n,
                    n == reached@.len(),
                    n == settled@.len(),
                    n == dist@.len(),
                    best == n || (best < n && reached@[best as int] && !settled@[best as int]),
                    forall|j: int|
                        0 <= j < k && #[trigger] reached@[j] && !settled@[j] ==> best < n && dist@[best as int]
                            <= dist@[j],
                decreases n - k,
            {
                if reached[k] && !settled[k] && (best == n || dist[k] < dist[best]) {
                    best = k;
                }
                k = k + 1;
            }
            if best == n {
                proof {
                    assert forall|j: int| 0 <= j < n && #[trigger] reached@[j] implies settled@[j] by {
                        if !settled@[j] {
                            assert(reached@[j] && !settled@[j]);
                        }
                    }
                    assert forall|p: Seq<usize>| !self.is_residual_walk(p) by {
                        self.lemma_no_walk(unit, s as int, t as int, dist@, reached@, settled@, ord@, pedge@, nsettled as int, p);
                    }
                }
                return None;
            }
            proof {
                self.lemma_selected_optimal_node(unit, s as int, t as int, dist@, reached@, settled@, ord@, pedge@, nsettled as int, best as int);
            }
            if best == t {
                let path = self.trace_path(unit, s, t, &dist, &reached, &settled, &ord, &pedge, nsettled);
                proof {
                    assert forall|q: Seq<usize>| #[trigger] self.is_residual_walk(q) implies self.walk_cost(unit, path@, path@.len() as int)
                        <= self.walk_cost(unit, q, q.len() as int) by {
                        let m = q.len() as int;
                        assert(q[0] < self.spec_edges().len());
                        assert(q[m - 1] < self.spec_edges().len());
                        let a = self.path_node(q, 0);
                        let b = self.path_node(q, m);
                        assert(a < self.spec_nodes().len());
                        assert(b < self.spec_nodes().len());
                        if a != s {
                            assert(self.spec_nodes()[a] == self.spec_nodes()[s as int]);
                        }
                        if b != t {
                            assert(self.spec_nodes()[b] == self.spec_nodes()[t as int]);
                        }
                        assert(self.is_walk(q, s as int, t as int));
                        reveal(Graph::dist_optimal);
                    }
                }
                return Some(path);
            }
            let ghost old_settled = settled@;
            settled.set(best, true);
            ord.set(best, nsettled);
            proof {
                lemma_count_true_set(old_settled, best as int);
                lemma_count_true_bound(settled@);
            }
            nsettled = nsettled + 1;
            proof {
                assert((nsettled - 1) * 0xffff_ffff_ffff_ffffu128 <= nsettled * 0xffff_ffff_ffff_ffffu128) by (nonlinear_arith);
                assert(nsettled * 0xffff_ffff_ffff_ffffu128 <= 0xffff_ffff_ffff_ffffu128 * 0xffff_ffff_ffff_ffffu128) by (nonlinear_arith)
                    requires
                        nsettled <= 0xffff_ffff_ffff_ffffu128,
                ;
                assert(nsettled * 0xffff_ffff_ffff_ffffu128 == (nsettled - 1) * 0xffff_ffff_ffff_ffffu128 + 0xffff_ffff_ffff_ffffu128) by (nonlinear_arith);
            }
            let db = dist[best];
            let mut k: usize = 0;
            while k < m
                invariant
                    self.wf(),
                    n == self.spec_nodes().len(),
                    m == self.spec_edges().len(),
                    k <= m,
                    best < n,
                    best != t,
                    settled@[best as int],
                    db == dist@[best as int],
                    db <= (nsettled - 1) * 0xffff_ffff_ffff_ffffu128,
                    nsettled * 0xffff_ffff_ffff_ffffu128 == (nsettled - 1) * 0xffff_ffff_ffff_ffffu128 + 0xffff_ffff_ffff_ffffu128,
                    nsettled * 0xffff_ffff_ffff_ffffu128 <= 0xffff_ffff_ffff_ffffu128 * 0xffff_ffff_ffff_ffffu128,
                    self.search_inv_partial(unit, s as int, t as int, dist@, reached@, settled@, ord@, pedge@, nsettled as int, best as int, k as int),
                decreases m - k,
            {
                if self.tails[k] == best && self.edges[k].flow < self.edges[k].capacity {
                    let v = self.heads[k];
                    let nd = db + if unit {
                        1u128
                    } else {
                        self.edges[k].cost as u128
                    };
                    if !settled[v] && (!reached[v] || nd < dist[v]) {
                        dist.set(v, nd);
                        reached.set(v, true);
                        pedge.set(v, k);
                    }
                }
                k = k + 1;
            }
        }
    }

    /// `search_inv`, with the moves out of `best` relaxed only for edges below `kk`.
    spec fn search_inv_partial(
        &self, unit: bool,
        s: int,
        t: int,
        dist: Seq<u128>,
        reached: Seq<bool>,
        settled: Seq<bool>,
        ord: Seq<usize>,
        pedge: Seq<usize>,
        nsettled: int,
        best: int,
        kk: int,
    ) -> bool {
        let n = self.spec_nodes().len() as int;
        let m = self.spec_edges().len() as int;
        &&& dist.len() == n
        &&& reached.len() == n
        &&& settled.len() == n
        &&& ord.len() == n
        &&& pedge.len() == n
        &&& 0 <= s < n
        &&& 0 <= t < n
        &&& s != t
        &&& reached[s]
        &&& count_true(settled) == nsettled
        &&& !settled[t]
        &&& forall|i: int| 0 <= i < n && #[trigger] settled[i] ==> reached[i] && ord[i] < nsettled
        &&& forall|i: int|
            0 <= i < n && #[trigger] reached[i] && i != s ==> {
                &&& pedge[i] < m
                &&& self.spec_heads()[pedge[i] as int] == i
                &&& settled[self.spec_tails()[pedge[i] as int] as int]
                &&& self.has_room(pedge[i] as int)
                &&& dist[i] == dist[self.spec_tails()[pedge[i] as int] as int] + self.step_cost(unit, pedge[i] as int)
            }
        &&& dist[s] == 0
        &&& forall|i: int| 0 <= i < n && #[trigger] reached[i] ==> dist[i] <= nsettled * 0xffff_ffff_ffff_ffff
        &&& forall|i: int| 0 <= i < n && #[trigger] settled[i] ==> self.dist_optimal(unit, s, i, dist[i] as int)
        &&& forall|i: int|
            0 <= i < n && #[trigger] settled[i] && i != s ==> ord[self.spec_tails()[pedge[i] as int] as int]
                < ord[i]
        &&& forall|k: int|
            #![trigger self.spec_tails()[k]]
            0 <= k < m && settled[self.spec_tails()[k] as int] && self.has_room(k) && (self.spec_tails()[k] != best || k < kk)
                ==> reached[self.spec_heads()[k] as int] && (settled[self.spec_heads()[k] as int]
                || dist[self.spec_heads()[k] as int] <= dist[self.spec_tails()[k] as int] + self.step_cost(unit, k))
    }

    /// Node `i` on the way back from `t` along the reversed edge list `rev`.
    spec fn back_node(&self, rev: Seq<usize>, t: int, i: int) -> int {
        if i == 0 {
            t
        } else {
            self.spec_tails()[rev[i - 1] as int] as int
        }
    }

    /// Follows the edges by which each node was reached back from `t` to `s`.
    fn trace_path(
        &self, unit: bool,
        s: usize,
        t: usize,
        dist_v: &Vec<u128>,
        reached: &Vec<bool>,
        settled: &Vec<bool>,
        ord: &Vec<usize>,
        pedge: &Vec<usize>,
        nsettled: usize,
    ) -> (r: Vec<usize>)
        requires
            self.wf(),
            self.spec_nodes()[s as int] == self.spec_source(),
            self.spec_nodes()[t as int] == self.spec_sink(),
            self.search_inv(unit, s as int, t as int, dist_v@, reached@, settled@, ord@, pedge@, nsettled as int),
            reached@[t as int],
        ensures
            self.is_augmenting_path(r@),
            self.walk_cost(unit, r@, r@.len() as int) == dist_v@[t as int],
    {
        let ghost dist = dist_v@;
        let ghost rank = |v: int| if v == t { nsettled as int } else { ord@[v] as int };
        let ghost m = self.spec_edges().len() as int;
        let ghost n = self.spec_nodes().len() as int;
        let mut rev: Vec<usize> = Vec::new();
        let mut cur: usize = t;
        while cur != s
            invariant
                self.wf(),
                self.search_inv(unit, s as int, t as int, dist, reached@, settled@, ord@, pedge@, nsettled as int),
                m == self.spec_edges().len(),
                n == self.spec_nodes().len(),
                rank == (|v: int| if v == t { nsettled as int } else { ord@[v] as int }),
                cur < n,
                reached@[cur as int],
                cur == t || settled@[cur as int],
                forall|i: int| 0 <= i < rev@.len() ==> #[trigger] rev@[i] < m && self.has_room(rev@[i] as int),
                rev@.len() > 0 ==> self.spec_heads()[rev@[0] as int] == t,
                forall|i: int|
                    0 <= i < rev@.len() - 1 ==> #[trigger] self.spec_tails()[rev@[i] as int]
                        == self.spec_heads()[rev@[i + 1] as int],
                cur == self.back_node(rev@, t as int, rev@.len() as int),
                self.walk_cost(unit, rev@, rev@.len() as int) == dist[t as int] - dist[cur as int],
                forall|i: int| 0 < i <= rev@.len() ==> settled@[#[trigger] self.back_node(rev@, t as int, i)],
                forall|a: int, b: int|
                    0 <= a < b <= rev@.len() ==> rank(self.back_node(rev@, t as int, a)) > rank(
                        self.back_node(rev@, t as int, b),
                    ),
            decreases rank(cur as int),
        {
            let k = pedge[cur];
            let ghost old_rev = rev@;
            rev.push(k);
            let next = self.tails[k];
            proof {
                let j = old_rev.len() as int;
                assert(settled@[next as int]);
                assert(next != t);
                assert(rank(next as int) < rank(cur as int));
                assert forall|i: int| 0 <= i <= j implies #[trigger] self.back_node(rev@, t as int, i) == self.back_node(old_rev, t as int, i) by {
                    if i > 0 {
                        assert(rev@[i - 1] == old_rev[i - 1]);
                    }
                }
                assert(self.back_node(rev@, t as int, j + 1) == next);
                self.lemma_walk_cost_prefix(unit, rev@, old_rev, j);
                assert forall|a: int, b: int|
                    0 <= a < b <= rev@.len() implies rank(self.back_node(rev@, t as int, a)) > rank(
                        self.back_node(rev@, t as int, b),
                    ) by {
                    if b == j + 1 {
                        if a < j {
                            assert(rank(self.back_node(old_rev, t as int, a)) > rank(self.back_node(old_rev, t as int, j)));
                        }
                    } else {
                        assert(rank(self.back_node(old_rev, t as int, a)) > rank(self.back_node(old_rev, t as int, b)));
                    }
                }
                assert forall|i: int| 0 < i <= rev@.len() implies settled@[#[trigger] self.back_node(rev@, t as int, i)] by {
                    if i <= j {
                        assert(settled@[self.back_node(old_rev, t as int, i)]);
                    }
                }
                assert forall|i: int|
                    0 <= i < rev@.len() - 1 implies #[trigger] self.spec_tails()[rev@[i] as int]
                        == self.spec_heads()[rev@[i + 1] as int] by {
                    if i < j - 1 {
                        assert(self.spec_tails()[old_rev[i] as int] == self.spec_heads()[old_rev[i + 1] as int]);
                    } else {
                        assert(self.back_node(old_rev, t as int, j) == cur);
                    }
                }
            }
            cur = next;
        }
        let len = rev.len();
        let mut path: Vec<usize> = Vec::new();
        let mut i: usize = 0;
        while i < len
            invariant
                len == rev@.len(),
                i <= len,
                path@.len() == i,
                forall|x: int| 0 <= x < i ==> path@[x] == rev@[len - 1 - x],
            decreases len - i,
        {
            path.push(rev[len - 1 - i]);
            i = i + 1;
        }
        proof {
            let j = len as int;
            let pp = path@;
            assert(j >= 1);
            assert forall|x: int| 0 <= x <= j implies self.path_node(pp, x) == self.back_node(rev@, t as int, j - x) by {
                if x < j {
                    assert(pp[x] == rev@[j - 1 - x]);
                } else {
                    assert(pp[j - 1] == rev@[0]);
                }
            }
            assert forall|x: int| 0 <= x < pp.len() implies #[trigger] pp[x] < self.spec_edges().len() && self.has_room(pp[x] as int) by {
                assert(pp[x] == rev@[j - 1 - x]);
            }
            assert forall|x: int| 0 <= x < pp.len() - 1 implies #[trigger] self.spec_heads()[pp[x] as int]
                == self.spec_tails()[pp[x + 1] as int] by {
                assert(pp[x] == rev@[j - 1 - x]);
                assert(pp[x + 1] == rev@[j - 1 - (x + 1)]);
                assert(self.spec_tails()[rev@[j - 2 - x] as int] == self.spec_heads()[rev@[j - 1 - x] as int]);
            }
            assert(self.path_node(pp, 0) == s);
            assert(self.path_node(pp, j) == t);
            self.lemma_walk_cost_reversed(unit, pp, rev@, j);
            assert forall|a: int, b: int| 0 <= a < b <= pp.len() implies self.path_node(pp, a) != self.path_node(pp, b) by {
                assert(rank(self.back_node(rev@, t as int, j - b)) > rank(self.back_node(rev@, t as int, j - a)));
            }
        }
        path
    }

    /// Some edge among the first `j` of `path` is edge `k`.
    spec fn in_prefix(path: Seq<usize>, j: int, k: int) -> bool {
        exists|i: int| 0 <= i < j && path[i] == k
    }

    /// `v` is the tail of one of the first `j` edges of `path`.
    spec fn tail_visited(&self, path: Seq<usize>, j: int, v: int) -> bool {
        exists|i: int| 0 <= i < j && self.path_node(path, i) == v
    }

    /// `v` is the head of one of the first `j` edges of `path`.
    spec fn head_visited(&self, path: Seq<usize>, j: int, v: int) -> bool {
        exists|i: int| 1 <= i <= j && self.path_node(path, i) == v
    }

    proof fn lemma_bottleneck_le(&self, path: Seq<usize>, len: int, j: int)
        requires
            0 <= j < len <= path.len(),
        ensures
            self.bottleneck(path, len) <= self.spec_edges()[path[j] as int].capacity
                - self.spec_edges()[path[j] as int].flow,
        decreases len,
    {
        if j < len - 1 {
            self.lemma_bottleneck_le(path, len - 1, j);
        }
    }

    /// A known point's number is the position where it stands.
    proof fn lemma_index_of(&self, i: int)
        requires
            self.wf(),
            0 <= i < self.spec_nodes().len(),
        ensures
            self.index_of(self.spec_nodes()[i]) == i,
    {
        let p = self.spec_nodes()[i];
        let j = self.index_of(p);
        assert(0 <= j < self.spec_nodes().len() && self.spec_nodes()[j] == p);
    }

    /// Sends `f` more units along every edge of the augmenting path `path`.
    fn augment(&mut self, path: &Vec<usize>, f: u64)
        requires
            old(self).wf(),
            old(self).is_augmenting_path(path@),
            0 < f <= old(self).bottleneck(path@, path@.len() as int),
        ensures
            final(self).wf(),
            final(self).spec_source() == old(self).spec_source(),
            final(self).spec_sink() == old(self).spec_sink(),
            final(self).spec_nodes() == old(self).spec_nodes(),
            final(self).spec_tails() == old(self).spec_tails(),
            final(self).spec_heads() == old(self).spec_heads(),
            final(self).spec_edges() == old(self).augmented(path@, f as int),
            old(self).conserves() ==> final(self).conserves(),
            forall|v: int|
                #[trigger] final(self).outflow(v) == old(self).outflow(v) + if old(self).tail_visited(
                    path@,
                    path@.len() as int,
                    v,
                ) {
                    f as int
                } else {
                    0
                },
            forall|v: int|
                #[trigger] final(self).inflow(v) == old(self).inflow(v) + if old(self).head_visited(
                    path@,
                    path@.len() as int,
                    v,
                ) {
                    f as int
                } else {
                    0
                },
            residual_sum(final(self).spec_edges(), final(self).spec_edges().len() as int)
                == residual_sum(old(self).spec_edges(), old(self).spec_edges().len() as int) - f
                * path@.len(),
    {
        let ghost g0 = *old(self);
        let ghost e0 = old(self).edges@;
        let ghost len = e0.len() as int;
        let ghost pth = path@;
        let elen = self.edges.len();
        let mut j: usize = 0;
        while j < path.len()
            invariant
                len == elen,
                g0 == *old(self),
                g0.wf(),
                g0.is_augmenting_path(pth),
                pth == path@,
                e0 == g0.edges@,
                len == e0.len(),
                0 < f <= g0.bottleneck(pth, pth.len() as int),
                j <= pth.len(),
                self.nodes == g0.nodes,
                self.tails == g0.tails,
                self.heads == g0.heads,
                self.source == g0.source,
                self.sink == g0.sink,
                self.edges@.len() == len,
                forall|k: int|
                    0 <= k < len ==> #[trigger] self.edges@[k] == if Self::in_prefix(pth, j as int, k) {
                        Edge { flow: (e0[k].flow + f) as u64, ..e0[k] }
                    } else {
                        e0[k]
                    },
                forall|v: int|
                    #[trigger] self.outflow(v) == g0.outflow(v) + if g0.tail_visited(pth, j as int, v) {
                        f as int
                    } else {
                        0
                    },
                forall|v: int|
                    #[trigger] self.inflow(v) == g0.inflow(v) + if g0.head_visited(pth, j as int, v) {
                        f as int
                    } else {
                        0
                    },
                residual_sum(self.edges@, len) == residual_sum(e0, len) - f * j,
            decreases pth.len() - j,
        {
            let k = path[j];
            let e = self.edges[k];
            proof {
                assert(pth[j as int] < len && g0.has_room(k as int));
                g0.lemma_bottleneck_le(pth, pth.len() as int, j as int);
                assert(!Self::in_prefix(pth, j as int, k as int)) by {
                    if Self::in_prefix(pth, j as int, k as int) {
                        let i = choose|i: int| 0 <= i < j && pth[i] == k;
                        assert(g0.path_node(pth, i) == g0.path_node(pth, j as int));
                    }
                }
                assert(e == e0[k as int]);
            }
            let ghost before = self.edges@;
            let ghost gb = *self;
            let ne = Edge { flow: e.flow + f, ..e };
            self.edges.set(k, ne);
            proof {
                let jj = j as int;
                let tv = g0.path_node(pth, jj);
                let hv = g0.path_node(pth, jj + 1);
                assert(self.tails@[k as int] == tv);
                if jj < pth.len() - 1 {
                    assert(g0.spec_heads()[pth[jj] as int] == g0.spec_tails()[pth[jj + 1] as int]);
                }
                assert(self.heads@[k as int] == hv);
                assert forall|kk: int| 0 <= kk < len implies #[trigger] self.edges@[kk] == if Self::in_prefix(pth, jj + 1, kk) {
                        Edge { flow: (e0[kk].flow + f) as u64, ..e0[kk] }
                    } else {
                        e0[kk]
                    } by {
                    if kk == k {
                        assert(pth[jj] == kk);
                    } else {
                        assert(before[kk] == self.edges@[kk]);
                        if Self::in_prefix(pth, jj + 1, kk) {
                            let i = choose|i: int| 0 <= i < jj + 1 && pth[i] == kk;
                            assert(Self::in_prefix(pth, jj, kk));
                        }
                    }
                }
                assert forall|v: int| #[trigger] self.outflow(v) == g0.outflow(v) + if g0.tail_visited(pth, jj + 1, v) {
                        f as int
                    } else {
                        0
                    } by {
                    lemma_sum_at_update(self.tails@, before, v, len, k as int, ne);
                    assert(gb.outflow(v) == sum_at(self.tails@, before, v, len));
                    assert(ne.flow - before[k as int].flow == f);
                    if v == tv {
                        assert(g0.tail_visited(pth, jj + 1, v));
                        assert(!g0.tail_visited(pth, jj, v)) by {
                            if g0.tail_visited(pth, jj, v) {
                                let i = choose|i: int| 0 <= i < jj && g0.path_node(pth, i) == v;
                            }
                        }
                    } else {
                        if g0.tail_visited(pth, jj + 1, v) {
                            let i = choose|i: int| 0 <= i < jj + 1 && g0.path_node(pth, i) == v;
                            assert(g0.tail_visited(pth, jj, v));
                        }
                    }
                }
                assert forall|v: int| #[trigger] self.inflow(v) == g0.inflow(v) + if g0.head_visited(pth, jj + 1, v) {
                        f as int
                    } else {
                        0
                    } by {
                    lemma_sum_at_update(self.heads@, before, v, len, k as int, ne);
                    assert(gb.inflow(v) == sum_at(self.heads@, before, v, len));
                    assert(ne.flow - before[k as int].flow == f);
                    if v == hv {
                        assert(g0.head_visited(pth, jj + 1, v));
                        assert(!g0.head_visited(pth, jj, v)) by {
                            if g0.head_visited(pth, jj, v) {
                                let i = choose|i: int| 1 <= i <= jj && g0.path_node(pth, i) == v;
                            }
                        }
                    } else {
                        if g0.head_visited(pth, jj + 1, v) {
                            let i = choose|i: int| 1 <= i <= jj + 1 && g0.path_node(pth, i) == v;
                            assert(g0.head_visited(pth, jj, v));
                        }
                    }
                }
                lemma_residual_update(before, len, k as int, ne);
                assert(f * (jj + 1) == f * jj + f) by (nonlinear_arith);
            }
            j = j + 1;
        }
        proof {
            let m = pth.len() as int;
            assert forall|kk: int| 0 <= kk < len implies #[trigger] self.edges@[kk] == g0.augmented(pth, f as int)[kk] by {
                if Self::in_prefix(pth, m, kk) {
                    let i = choose|i: int| 0 <= i < m && pth[i] == kk;
                    assert(pth.contains(kk as usize));
                } else {
                    if pth.contains(kk as usize) {
                        let i = choose|i: int| 0 <= i < m && pth[i] == kk as usize;
                        assert(pth[i] as int == kk);
                        assert(Self::in_prefix(pth, m, kk));
                    }
                }
            }
            assert(self.edges@ == g0.augmented(pth, f as int));
            assert forall|k: int| 0 <= k < len implies #[trigger] self.spec_edges()[k].flow <= self.spec_edges()[k].capacity by {
                if Self::in_prefix(pth, m, k) {
                    let i = choose|i: int| 0 <= i < m && pth[i] == k;
                    g0.lemma_bottleneck_le(pth, m, i);
                }
            }
            assert forall|k: int| 0 <= k < len implies #[trigger] self.spec_heads()[k] < self.spec_nodes().len()
                && self.spec_nodes()[self.spec_heads()[k] as int] == self.spec_edges()[k].to by {
                assert(g0.spec_heads()[k] < g0.spec_nodes().len());
            }
            assert forall|k: int| 0 <= k < len implies #[trigger] self.spec_tails()[k] < self.spec_nodes().len() by {
                assert(g0.spec_tails()[k] < g0.spec_nodes().len());
            }
            if g0.conserves() {
                assert forall|v: int|
                    0 <= v < self.spec_nodes().len() && self.spec_nodes()[v] != self.spec_source()
                        && self.spec_nodes()[v] != self.spec_sink() implies #[trigger] self.inflow(v) == self.outflow(v) by {
                    assert(g0.inflow(v) == g0.outflow(v));
                    assert(pth[0] < len);
                    assert(pth[m - 1] < len);
                    if g0.tail_visited(pth, m, v) {
                        let i = choose|i: int| 0 <= i < m && g0.path_node(pth, i) == v;
                        assert(i != 0);
                        assert(g0.head_visited(pth, m, v));
                    }
                    if g0.head_visited(pth, m, v) {
                        let i = choose|i: int| 1 <= i <= m && g0.path_node(pth, i) == v;
                        assert(i != m);
                        assert(g0.tail_visited(pth, m, v));
                    }
                }
            }
        }
    }

    /// The least spare capacity along `path`.
    fn path_bottleneck(&self, path: &Vec<usize>) -> (r: u64)
        requires
            self.wf(),
            forall|j: int| 0 <= j < path@.len() ==> #[trigger] path@[j] < self.spec_edges().len(),
        ensures
            r == self.bottleneck(path@, path@.len() as int),
    {
        let mut b: u64 = u64::MAX;
        let mut j: usize = 0;
        while j < path.len()
            invariant
                self.wf(),
                forall|j: int| 0 <= j < path@.len() ==> #[trigger] path@[j] < self.spec_edges().len(),
                j <= path@.len(),
                b == self.bottleneck(path@, j as int),
            decreases path@.len() - j,
        {
            let e = self.edges[path[j]];
            if e.capacity - e.flow < b {
                b = e.capacity - e.flow;
            }
            j = j + 1;
        }
        b
    }

    /// The points that the edge path `path` visits.
    fn points_of(&self, path: &Vec<usize>) -> (r: Vec<Point>)
        requires
            self.wf(),
            self.is_residual_walk(path@),
        ensures
            r@ == self.path_points(path@),
    {
        let mut r: Vec<Point> = Vec::new();
        let mut j: usize = 0;
        while j < path.len()
            invariant
                self.wf(),
                self.is_residual_walk(path@),
                j <= path@.len(),
                r@.len() == j,
                forall|x: int| 0 <= x < j ==> r@[x] == self.path_points(path@)[x],
            decreases path@.len() - j,
        {
            r.push(self.nodes[self.tails[path[j]]]);
            j = j + 1;
        }
        let last = path[path.len() - 1];
        r.push(self.nodes[self.heads[last]]);
        proof {
            assert(r@ =~= self.path_points(path@));
        }
        r
    }

    /// Finds the cheapest path from the source to the sink along edges with spare
    /// capacity (no walk of that kind costs less) and sends as much flow down it
    /// as its tightest edge allows.
    /// Returns that amount and the path's points; `(0, None)` when the sink cannot
    /// be reached. When the source is the sink the path is that one point, with
    /// no edge to limit it: `(u64::MAX, Some([source]))`, and nothing changes.
    pub fn route_cheapest_path(&mut self) -> (r: (u64, Option<Vec<Point>>))
        requires
            old(self).wf(),
        ensures
            final(self).wf(),
            final(self).spec_source() == old(self).spec_source(),
            final(self).spec_sink() == old(self).spec_sink(),
            final(self).spec_nodes() == old(self).spec_nodes(),
            final(self).spec_tails() == old(self).spec_tails(),
            final(self).spec_heads() == old(self).spec_heads(),
            old(self).conserves() ==> final(self).conserves(),
            old(self).spec_source() == old(self).spec_sink() ==> {
                &&& r.0 == u64::MAX
                &&& r.1 matches Some(p) && p@ == seq![old(self).spec_source()]
                &&& final(self).spec_edges() == old(self).spec_edges()
            },
            old(self).spec_source() != old(self).spec_sink() ==> match r.1 {
                None => {
                    &&& r.0 == 0
                    &&& final(self).spec_edges() == old(self).spec_edges()
                    &&& forall|p: Seq<usize>| !old(self).is_residual_walk(p)
                },
                Some(pts) => exists|path: Seq<usize>|
                    {
                        &&& #[trigger] old(self).is_augmenting_path(path)
                        &&& forall|q: Seq<usize>| #[trigger]
                            old(self).is_residual_walk(q) ==> old(self).walk_cost(false, path, path.len() as int)
                                <= old(self).walk_cost(false, q, q.len() as int)
                        &&& r.0 == old(self).bottleneck(path, path.len() as int)
                        &&& pts@ == old(self).path_points(path)
                        &&& final(self).spec_edges() == old(self).augmented(path, r.0 as int)
                    },
            },
    {
        if self.source == self.sink {
            let mut p: Vec<Point> = Vec::new();
            p.push(self.source);
            return (u64::MAX, Some(p));
        }
        match self.find_cheapest_path_dijkstra(false) {
            None => (0, None),
            Some(path) => {
                let ghost g0 = *self;
                let f = self.path_bottleneck(&path);
                proof {
                    assert(path@[0] < self.spec_edges().len() && self.has_room(path@[0] as int));
                    self.lemma_bottleneck_le(path@, path@.len() as int, 0);
                    assert forall|j: int| 0 <= j < path@.len() implies #[trigger] self.bottleneck(path@, j + 1) > 0 by {
                        self.lemma_bottleneck_pos(path@, j + 1);
                    }
                    self.lemma_bottleneck_pos(path@, path@.len() as int);
                }
                let pts = self.points_of(&path);
                self.augment(&path, f);
                proof {
                    assert(g0.is_augmenting_path(path@));
                }
                (f, Some(pts))
            },
        }
    }

    proof fn lemma_bottleneck_pos(&self, path: Seq<usize>, len: int)
        requires
            0 <= len <= path.len(),
            forall|j: int| 0 <= j < path.len() ==> #[trigger] path[j] < self.spec_edges().len() && self.has_room(path[j] as int),
        ensures
            self.bottleneck(path, len) > 0,
        decreases len,
    {
        if len > 0 {
            self.lemma_bottleneck_pos(path, len - 1);
        }
    }

    /// The flow leaving the source; none when the source is no node.
    pub open spec fn source_outflow(&self) -> int {
        if self.spec_nodes().contains(self.spec_source()) {
            self.outflow(self.index_of(self.spec_source()))
        } else {
            0
        }
    }

    /// The flow entering the sink; none when the sink is no node.
    pub open spec fn sink_inflow(&self) -> int {
        if self.spec_nodes().contains(self.spec_sink()) {
            self.inflow(self.index_of(self.spec_sink()))
        } else {
            0
        }
    }

    /// Every edge keeps its end, capacity and cost, and carries no less flow
    /// than it did in `old`.
    pub open spec fn flows_grown_from(&self, old: Graph) -> bool {
        &&& self.spec_edges().len() == old.spec_edges().len()
        &&& forall|k: int|
            0 <= k < old.spec_edges().len() ==> #[trigger] self.spec_edges()[k] == (Edge {
                flow: self.spec_edges()[k].flow,
                ..old.spec_edges()[k]
            }) && self.spec_edges()[k].flow >= old.spec_edges()[k].flow
    }

    /// Sends flow along augmenting paths of fewest edges, whatever their cost,
    /// until no edge path with spare capacity leads from the source to the
    /// sink. Returns the total sent (saturating at `u64::MAX`); 0 when the
    /// source is the sink, in which case nothing changes.
    pub fn edmonds_karp(&mut self) -> (r: u64)
        requires
            old(self).wf(),
        ensures
            final(self).wf(),
            final(self).spec_source() == old(self).spec_source(),
            final(self).spec_sink() == old(self).spec_sink(),
            final(self).spec_nodes() == old(self).spec_nodes(),
            final(self).spec_tails() == old(self).spec_tails(),
            final(self).spec_heads() == old(self).spec_heads(),
            old(self).conserves() ==> final(self).conserves(),
            old(self).spec_source() == old(self).spec_sink() ==> r == 0 && final(self).spec_edges()
                == old(self).spec_edges(),
            final(self).flows_grown_from(*old(self)),
            final(self).sink_inflow() - old(self).sink_inflow() == final(self).source_outflow()
                - old(self).source_outflow(),
            old(self).spec_source() != old(self).spec_sink() ==> {
                &&& forall|p: Seq<usize>| !final(self).is_residual_walk(p)
                &&& r == if final(self).source_outflow() - old(self).source_outflow() > u64::MAX {
                    u64::MAX as int
                } else {
                    final(self).source_outflow() - old(self).source_outflow()
                }
            },
    {
        if self.source == self.sink {
            return 0;
        }
        let ghost g0 = *old(self);
        let mut max_flow: u64 = 0;
        loop
            invariant
                g0 == *old(self),
                g0.spec_source() != g0.spec_sink(),
                self.wf(),
                self.spec_source() == g0.spec_source(),
                self.spec_sink() == g0.spec_sink(),
                self.spec_nodes() == g0.spec_nodes(),
                self.spec_tails() == g0.spec_tails(),
                self.spec_heads() == g0.spec_heads(),
                g0.conserves() ==> self.conserves(),
                self.flows_grown_from(g0),
                self.sink_inflow() - g0.sink_inflow() == self.source_outflow() - g0.source_outflow(),
                self.source_outflow() >= g0.source_outflow(),
                max_flow == if self.source_outflow() - g0.source_outflow() > u64::MAX {
                    u64::MAX as int
                } else {
                    self.source_outflow() - g0.source_outflow()
                },
            decreases residual_sum(self.spec_edges(), self.spec_edges().len() as int),
        {
            match self.find_cheapest_path_dijkstra(true) {
                None => {
                    return max_flow;
                },
                Some(path) => {
                    let ghost before = *self;
                    let elen = self.edges.len();
                    let f = self.path_bottleneck(&path);
                    proof {
                        self.lemma_bottleneck_pos(path@, path@.len() as int);
                        lemma_residual_nonneg(self.spec_edges(), self.spec_edges().len() as int);
                    }
                    self.augment(&path, f);
                    proof {
                        let m = path@.len() as int;
                        assert(f * m >= 1) by (nonlinear_arith)
                            requires
                                f >= 1,
                                m >= 1,
                        ;
                        lemma_residual_nonneg(self.spec_edges(), self.spec_edges().len() as int);
                        let s = before.path_node(path@, 0);
                        assert(path@[0] < before.spec_edges().len());
                        before.lemma_index_of(s);
                        assert(before.spec_nodes().contains(before.spec_source()));
                        assert(before.tail_visited(path@, m, s));
                        assert(self.source_outflow() == before.source_outflow() + f);
                        let t = before.path_node(path@, m);
                        assert(path@[m - 1] < before.spec_edges().len());
                        before.lemma_index_of(t);
                        assert(before.spec_nodes().contains(before.spec_sink()));
                        assert(before.head_visited(path@, m, t));
                        assert(self.sink_inflow() == before.sink_inflow() + f);
                        assert forall|k: int| 0 <= k < g0.spec_edges().len() implies #[trigger] self.spec_edges()[k] == (Edge {
                            flow: self.spec_edges()[k].flow,
                            ..g0.spec_edges()[k]
                        }) && self.spec_edges()[k].flow >= g0.spec_edges()[k].flow by {
                            assert(before.spec_edges()[k] == (Edge { flow: before.spec_edges()[k].flow, ..g0.spec_edges()[k] }));
                            assert(self.spec_edges()[k] == before.augmented(path@, f as int)[k]);
                            if path@.contains(k as usize) {
                                let i = choose|i: int| 0 <= i < path@.len() && path@[i] == k as usize;
                                assert(k <= elen);
                                assert(path@[i] as int == k);
                                before.lemma_bottleneck_le(path@, m, i);
                                assert(before.spec_edges()[k].flow + f <= before.spec_edges()[k].capacity);
                            }
                        }
                    }
                    max_flow = max_flow.saturating_add(f);
                },
            }
        }
    }
}

} // verus!
