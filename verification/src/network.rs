use vstd::prelude::*;

use crate::activation::Activation;
use crate::genome::{Genome, Role};

verus! {

/// One incoming edge of a decoded node: the position of its source in the
/// evaluation order, and the weight's bit pattern.
#[derive(Clone, Copy, PartialEq, Eq, Structural, Debug)]
pub struct Edge {
    pub src: usize,
    pub weight: u64,
}

/// One node of a decoded network: its incoming weighted edges, in the order
/// the connection genes carry them.
pub struct NetNode {
    pub incoming: Vec<Edge>,
}

/// A decoded, directly evaluable feed-forward network: nodes in evaluation
/// order (inputs first, outputs last, outputs in id order), each non-input
/// node with its incoming edges. Immutable after creation.
pub struct Network {
    pub inputs: usize,
    pub outputs: usize,
    pub nodes: Vec<NetNode>,
}

/// The arithmetic of the embedding host, over IEEE-754 bit patterns. The
/// evaluator is generic in it, as the original design keeps the activation
/// function pluggable; this crate never interprets the patterns itself, but
/// each operation must return the value its spec function names, so that
/// evaluation is a pure function of the network, the input and the
/// activation choice.
pub trait Arith {
    /// The value of `acc + w * v` in the host's numeric domain.
    spec fn spec_mul_add(&self, acc: u64, w: u64, v: u64) -> u64;

    /// The value of the chosen activation applied to `x`.
    spec fn spec_activate(&self, act: Activation, x: u64) -> u64;

    /// The pattern of `acc + w * v`, each argument read as a double.
    fn mul_add(&self, acc: u64, w: u64, v: u64) -> (r: u64)
        ensures
            r == self.spec_mul_add(acc, w, v),
    ;

    /// The pattern of the chosen activation applied to `x` read as a double.
    fn activate(&self, act: Activation, x: u64) -> (r: u64)
        ensures
            r == self.spec_activate(act, x),
    ;
}

/// The value of the node at position `i` under the host arithmetic: an
/// input node takes the corresponding input element, every other node the
/// activation of the weighted sum of its incoming edges, whose sources are
/// read strictly earlier in the evaluation order.
pub open spec fn spec_node_value<A: Arith>(
    arith: A,
    net: Network,
    input: Seq<u64>,
    act: Activation,
    i: int,
) -> u64
    decreases i, net.nodes@[i].incoming@.len() + 1,
{
    if i < net.inputs {
        input[i]
    } else {
        arith.spec_activate(
            act,
            spec_node_sum(arith, net, input, act, i, net.nodes@[i].incoming@.len() as int),
        )
    }
}

/// The weighted sum of the first `k` incoming edges of node `i`, folded
/// left from the zero pattern.
pub open spec fn spec_node_sum<A: Arith>(
    arith: A,
    net: Network,
    input: Seq<u64>,
    act: Activation,
    i: int,
    k: int,
) -> u64
    decreases i, k,
{
    if k <= 0 {
        0u64
    } else {
        let e = net.nodes@[i].incoming@[k - 1];
        let v = if (e.src as int) < i {
            spec_node_value(arith, net, input, act, e.src as int)
        } else {
            0u64
        };
        arith.spec_mul_add(spec_node_sum(arith, net, input, act, i, k - 1), e.weight, v)
    }
}

/// Everything prediction returns: the values of the output nodes, which
/// stand last in the evaluation order, in id order.
pub open spec fn spec_predict<A: Arith>(
    arith: A,
    net: Network,
    input: Seq<u64>,
    act: Activation,
) -> Seq<u64> {
    Seq::new(
        net.outputs as nat,
        |j: int| spec_node_value(arith, net, input, act, net.nodes@.len() - net.outputs + j),
    )
}

/// Prediction reads only the network's structure: two networks with the
/// same counts and the same edge lists give every node the same value.
proof fn lemma_node_value_by_structure<A: Arith>(
    arith: A,
    a: Network,
    b: Network,
    input: Seq<u64>,
    act: Activation,
    i: int,
)
    requires
        a.inputs == b.inputs,
        a.nodes@.len() == b.nodes@.len(),
        a.nodes_view() == b.nodes_view(),
        0 <= i < a.nodes@.len(),
    ensures
        spec_node_value(arith, a, input, act, i) == spec_node_value(arith, b, input, act, i),
    decreases i, a.nodes@[i].incoming@.len() + 1,
{
    if i >= a.inputs {
        assert(a.nodes@[i].incoming@ == a.nodes_view()[i]);
        assert(b.nodes@[i].incoming@ == b.nodes_view()[i]);
        lemma_node_sum_by_structure(
            arith,
            a,
            b,
            input,
            act,
            i,
            a.nodes@[i].incoming@.len() as int,
        );
    }
}

/// The weighted sums agree as well, edge by edge.
proof fn lemma_node_sum_by_structure<A: Arith>(
    arith: A,
    b: Network,
    c: Network,
    input: Seq<u64>,
    act: Activation,
    i: int,
    k: int,
)
    requires
        b.inputs == c.inputs,
        b.nodes@.len() == c.nodes@.len(),
        b.nodes_view() == c.nodes_view(),
        0 <= i < b.nodes@.len(),
        k <= b.nodes@[i].incoming@.len(),
    ensures
        spec_node_sum(arith, b, input, act, i, k) == spec_node_sum(arith, c, input, act, i, k),
    decreases i, k,
{
    assert(b.nodes@[i].incoming@ == b.nodes_view()[i]);
    assert(c.nodes@[i].incoming@ == c.nodes_view()[i]);
    if k > 0 {
        lemma_node_sum_by_structure(arith, b, c, input, act, i, k - 1);
        let e = b.nodes@[i].incoming@[k - 1];
        if (e.src as int) < i {
            lemma_node_value_by_structure(arith, b, c, input, act, e.src as int);
        }
    }
}

/// Prediction is a function of the network's structure alone: two networks
/// with the same input and output counts and the same edge lists predict
/// identically, on every input, under either activation, for any host
/// arithmetic.
pub proof fn lemma_predict_by_structure<A: Arith>(
    arith: A,
    a: Network,
    b: Network,
    input: Seq<u64>,
    act: Activation,
)
    requires
        a.wf(),
        a.inputs == b.inputs,
        a.outputs == b.outputs,
        a.nodes@.len() == b.nodes@.len(),
        a.nodes_view() == b.nodes_view(),
    ensures
        spec_predict(arith, a, input, act) == spec_predict(arith, b, input, act),
{
    assert forall|t: int| 0 <= t < a.nodes@.len() implies #[trigger] spec_node_value(
        arith,
        a,
        input,
        act,
        t,
    ) == spec_node_value(arith, b, input, act, t) by {
        lemma_node_value_by_structure(arith, a, b, input, act, t);
    }
    assert(spec_predict(arith, a, input, act) =~= spec_predict(arith, b, input, act));
}

/// Rejected calls of the evaluator.
#[derive(Clone, Copy, PartialEq, Eq, Structural, Debug)]
pub enum PredictError {
    /// The input vector's length differs from the network's input count.
    WrongInputLength,
}

impl Network {
    /// The network's structure as plain sequences: one edge list per node.
    pub open spec fn nodes_view(self) -> Seq<Seq<Edge>> {
        self.nodes@.map_values(|nn: NetNode| nn.incoming@)
    }

    /// Well-formedness: at least one input and one output node, input nodes
    /// first with no incoming edges, and every edge fed from a strictly
    /// earlier node — the order is topological, so evaluation never looks at
    /// a value that has not been computed yet.
    pub open spec fn wf(self) -> bool {
        &&& 1 <= self.inputs
        &&& 1 <= self.outputs
        &&& self.inputs + self.outputs <= self.nodes@.len()
        &&& forall|i: int|
            0 <= i < self.inputs ==> (#[trigger] self.nodes@[i]).incoming@.len() == 0
        &&& forall|i: int, k: int|
            0 <= i < self.nodes@.len() && 0 <= k < self.nodes@[i].incoming@.len()
                ==> (#[trigger] self.nodes@[i].incoming@[k]).src < i
    }
}

/// The index of the node with the given id, if one exists.
pub open spec fn spec_index_of(g: Genome, id: usize) -> int {
    choose|k: int| 0 <= k < g.nodes@.len() && g.nodes@[k].id == id
}

/// The incoming edges of the node at position `i`, built from the first
/// `upto` connection genes: the enabled ones that target it, in gene order,
/// each source replaced by its position in the node order.
pub open spec fn spec_incoming(g: Genome, i: int, upto: int) -> Seq<Edge>
    decreases upto,
{
    if upto <= 0 {
        Seq::empty()
    } else {
        let rest = spec_incoming(g, i, upto - 1);
        let c = g.conns@[upto - 1];
        if c.enabled && c.to == g.nodes@[i].id {
            rest.push(Edge { src: spec_index_of(g, c.from) as usize, weight: c.weight })
        } else {
            rest
        }
    }
}

/// The full decoding of a genome: the edge lists of every node, in node
/// order, from the enabled connection genes alone.
pub open spec fn spec_decode(g: Genome) -> Seq<Seq<Edge>> {
    Seq::new(g.nodes@.len() as nat, |i: int| spec_incoming(g, i, g.conns@.len() as int))
}

impl Genome {
    /// Decodes this genome into an evaluable network. The genome invariant
    /// makes the enabled-connection graph acyclic, so decoding is total:
    /// there is no failing case left.
    pub fn get_network(&self) -> (r: Network)
        requires
            self.wf(),
        ensures
            r.wf(),
            r.inputs == self.inputs,
            r.outputs == self.outputs,
            r.nodes@.len() == self.nodes@.len(),
            r.nodes_view() == spec_decode(*self),
    {
        let n = self.nodes.len();
        let mut nodes: Vec<NetNode> = Vec::new();
        let mut i: usize = 0;
        while i < n
            invariant
                self.wf(),
                i <= n,
                n == self.nodes@.len(),
                nodes@.len() == i,
                forall|t: int|
                    0 <= t < i ==> (#[trigger] nodes@[t]).incoming@ == spec_incoming(
                        *self,
                        t,
                        self.conns@.len() as int,
                    ),
                forall|t: int|
                    0 <= t < i && t < self.inputs ==> (#[trigger] nodes@[t]).incoming@.len()
                        == 0,
                forall|t: int, e: int|
                    0 <= t < i && 0 <= e < nodes@[t].incoming@.len()
                        ==> (#[trigger] nodes@[t].incoming@[e]).src < t,
            decreases n - i,
        {
            let mut inc: Vec<Edge> = Vec::new();
            let mut k: usize = 0;
            while k < self.conns.len()
                invariant
                    self.wf(),
                    i < self.nodes@.len(),
                    k <= self.conns@.len(),
                    inc@ == spec_incoming(*self, i as int, k as int),
                    forall|e: int| 0 <= e < inc@.len() ==> (#[trigger] inc@[e]).src < i,
                decreases self.conns@.len() - k,
            {
                let c = self.conns[k];
                proof {
                    assert(self.conn_endpoints_ok(self.conns@[k as int]));
                }
                if c.enabled && c.to == self.nodes[i].id {
                    match self.index_of_id(c.from) {
                        Some(s) => {
                            proof {
                                let (i0, j0) = choose|i0: int, j0: int|
                                    {
                                        &&& 0 <= i0 < self.nodes@.len()
                                        &&& 0 <= j0 < self.nodes@.len()
                                        &&& (#[trigger] self.nodes@[i0]).id == c.from
                                        &&& (#[trigger] self.nodes@[j0]).id == c.to
                                        &&& self.nodes@[i0].level < self.nodes@[j0].level
                                        &&& self.nodes@[j0].role != Role::Input
                                    };
                                // the target with this id is unique: it is node i
                                assert(j0 == i);
                                // the source with this id is unique: it is node s
                                assert(s == i0);
                                // a strictly lower level means a strictly earlier position
                                if i0 >= i {
                                    if i0 > i {
                                        assert(crate::genome::node_before(
                                            self.nodes@[i as int],
                                            self.nodes@[i0],
                                        ));
                                    }
                                    assert(false);
                                }
                                assert(spec_index_of(*self, c.from) == s as int);
                            }
                            inc.push(Edge { src: s, weight: c.weight });
                        },
                        None => {
                            proof {
                                assert(false);
                            }
                        },
                    }
                }
                k = k + 1;
            }
            proof {
                if i < self.inputs {
                    // an input node is never a connection target
                    if inc@.len() > 0 {
                        assert(spec_incoming(*self, i as int, self.conns@.len() as int).len()
                            > 0);
                        lemma_input_incoming_empty(*self, i as int, self.conns@.len() as int);
                    }
                }
            }
            nodes.push(NetNode { incoming: inc });
            i = i + 1;
        }
        let r = Network { inputs: self.inputs, outputs: self.outputs, nodes };
        proof {
            assert(r.nodes_view() =~= spec_decode(*self));
        }
        r
    }
}

/// For a well-formed genome, no enabled connection targets an input node,
/// so every input node's decoded edge list is empty.
proof fn lemma_input_incoming_empty(g: Genome, i: int, upto: int)
    requires
        g.wf(),
        0 <= i < g.inputs,
        upto <= g.conns@.len(),
    ensures
        spec_incoming(g, i, upto) == Seq::<Edge>::empty(),
    decreases upto,
{
    if upto > 0 {
        lemma_input_incoming_empty(g, i, upto - 1);
        let c = g.conns@[upto - 1];
        if c.enabled && c.to == g.nodes@[i].id {
            assert(g.conn_endpoints_ok(c));
            let (i0, j0) = choose|i0: int, j0: int|
                {
                    &&& 0 <= i0 < g.nodes@.len()
                    &&& 0 <= j0 < g.nodes@.len()
                    &&& (#[trigger] g.nodes@[i0]).id == c.from
                    &&& (#[trigger] g.nodes@[j0]).id == c.to
                    &&& g.nodes@[i0].level < g.nodes@[j0].level
                    &&& g.nodes@[j0].role != Role::Input
                };
            assert(j0 == i);
            assert(false);
        }
    }
}

impl Network {
    /// Evaluates the network on an input vector of bit patterns, strictly in
    /// node order: an input node's value is the corresponding input element,
    /// every other node's value is the activation of the weighted sum of its
    /// incoming edges, uniformly for every non-input node. Returns the
    /// output nodes' values, in id order: exactly [`spec_predict`], so
    /// prediction is a pure function of the network, the input and the
    /// activation, and two calls with equal arguments agree.
    pub fn predict<A: Arith>(&self, input: &Vec<u64>, act: Activation, arith: &A) -> (r: Vec<u64>)
        requires
            self.wf(),
            input@.len() == self.inputs,
        ensures
            r@.len() == self.outputs,
            r@ == spec_predict(*arith, *self, input@, act),
    {
        let n = self.nodes.len();
        let mut values: Vec<u64> = Vec::new();
        let mut i: usize = 0;
        while i < self.inputs
            invariant
                self.wf(),
                input@.len() == self.inputs,
                i <= self.inputs,
                values@.len() == i,
                forall|t: int|
                    0 <= t < i ==> values@[t] == spec_node_value(
                        *arith,
                        *self,
                        input@,
                        act,
                        t,
                    ),
            decreases self.inputs - i,
        {
            values.push(input[i]);
            i = i + 1;
        }
        while i < n
            invariant
                self.wf(),
                input@.len() == self.inputs,
                n == self.nodes@.len(),
                self.inputs <= i <= n,
                values@.len() == i,
                forall|t: int|
                    0 <= t < i ==> values@[t] == spec_node_value(
                        *arith,
                        *self,
                        input@,
                        act,
                        t,
                    ),
            decreases n - i,
        {
            // the bit pattern of 0.0 is 0: the sum over no edges
            let mut acc: u64 = 0;
            let mut k: usize = 0;
            let edges = self.nodes[i].incoming.len();
            while k < edges
                invariant
                    self.wf(),
                    input@.len() == self.inputs,
                    n == self.nodes@.len(),
                    self.inputs <= i < n,
                    values@.len() == i,
                    edges == self.nodes@[i as int].incoming@.len(),
                    k <= edges,
                    forall|t: int|
                        0 <= t < i ==> values@[t] == spec_node_value(
                            *arith,
                            *self,
                            input@,
                            act,
                            t,
                        ),
                    acc == spec_node_sum(*arith, *self, input@, act, i as int, k as int),
                decreases edges - k,
            {
                let e = self.nodes[i].incoming[k];
                acc = arith.mul_add(acc, e.weight, values[e.src]);
                k = k + 1;
            }
            let v = arith.activate(act, acc);
            proof {
                assert(v == spec_node_value(*arith, *self, input@, act, i as int));
            }
            values.push(v);
            i = i + 1;
        }
        let mut out: Vec<u64> = Vec::new();
        let mut j: usize = 0;
        while j < self.outputs
            invariant
                self.wf(),
                n == self.nodes@.len(),
                values@.len() == self.nodes@.len(),
                j <= self.outputs,
                out@.len() == j,
                forall|t: int|
                    0 <= t < values@.len() ==> values@[t] == spec_node_value(
                        *arith,
                        *self,
                        input@,
                        act,
                        t,
                    ),
                forall|t: int|
                    0 <= t < j ==> out@[t] == spec_node_value(
                        *arith,
                        *self,
                        input@,
                        act,
                        self.nodes@.len() - self.outputs + t,
                    ),
            decreases self.outputs - j,
        {
            out.push(values[self.nodes.len() - self.outputs + j]);
            j = j + 1;
        }
        proof {
            assert(out@ =~= spec_predict(*arith, *self, input@, act));
        }
        out
    }

    /// Evaluates the network, first checking the input vector's shape: a
    /// mismatched length is an invalid argument, reported and never padded
    /// or truncated.
    pub fn try_predict<A: Arith>(&self, input: &Vec<u64>, act: Activation, arith: &A) -> (r:
        Result<Vec<u64>, PredictError>)
        requires
            self.wf(),
        ensures
            match r {
                Ok(out) => input@.len() == self.inputs && out@.len() == self.outputs
                    && out@ == spec_predict(*arith, *self, input@, act),
                Err(e) => input@.len() != self.inputs && e == PredictError::WrongInputLength,
            },
    {
        if input.len() != self.inputs {
            return Err(PredictError::WrongInputLength);
        }
        Ok(self.predict(input, act, arith))
    }
}

} // verus!
