use vstd::prelude::*;

verus! {

/// The role of a node. Input and output nodes are fixed when a genome is
/// created; hidden nodes are added by mutation.
#[derive(Clone, Copy, PartialEq, Eq, Structural, Debug)]
pub enum Role {
    Input,
    Hidden,
    Output,
}

/// A node of a genome. `level` orders the feed-forward graph: inputs sit at
/// level `0`, outputs at `u64::MAX`, and every hidden node strictly between;
/// a connection may only run from a lower level to a strictly higher one,
/// which keeps the enabled-connection graph acyclic by construction.
#[derive(Clone, Copy, PartialEq, Eq, Structural, Debug)]
pub struct Node {
    pub id: usize,
    pub level: u64,
    pub role: Role,
}

/// A connection gene: a weighted edge from the node with id `from` to the
/// node with id `to`. Disabled connections are retained but not evaluated.
/// `innovation` is the structural identity assigned by the population when
/// the connection shape was first created.
#[derive(Clone, Copy, PartialEq, Eq, Structural, Debug)]
pub struct Connection {
    pub from: usize,
    pub to: usize,
    pub weight: u64,
    pub enabled: bool,
    pub innovation: u64,
}

/// Strict order of nodes by `(level, id)`: the evaluation order of a
/// decoded network.
pub open spec fn node_before(a: Node, b: Node) -> bool {
    a.level < b.level || (a.level == b.level && a.id < b.id)
}

/// The evolvable encoding of a network: a node set and a connection set.
pub struct Genome {
    pub inputs: usize,
    pub outputs: usize,
    pub nodes: Vec<Node>,
    pub conns: Vec<Connection>,
}

impl Genome {
    /// The ids `0 .. inputs` are the input nodes, in order, at the front.
    pub open spec fn inputs_ok(self) -> bool {
        forall|i: int|
            0 <= i < self.inputs ==> (#[trigger] self.nodes@[i]) == (Node {
                id: i as usize,
                level: 0u64,
                role: Role::Input,
            })
    }

    /// The ids `inputs .. inputs + outputs` are the output nodes, in order,
    /// at the back.
    pub open spec fn outputs_ok(self) -> bool {
        forall|i: int|
            self.nodes@.len() - self.outputs <= i < self.nodes@.len()
                ==> (#[trigger] self.nodes@[i]) == (Node {
                id: (self.inputs + i - (self.nodes@.len() - self.outputs)) as usize,
                level: u64::MAX,
                role: Role::Output,
            })
    }

    /// Every node between the inputs and the outputs is hidden, sits at a
    /// level strictly between theirs, and has an id past the fixed ones.
    pub open spec fn hidden_ok(self) -> bool {
        forall|i: int|
            self.inputs <= i < self.nodes@.len() - self.outputs ==> {
                &&& (#[trigger] self.nodes@[i]).role == Role::Hidden
                &&& 0 < self.nodes@[i].level < u64::MAX
                &&& self.inputs + self.outputs <= self.nodes@[i].id
            }
    }

    /// Nodes are strictly sorted by `(level, id)` and carry distinct ids.
    pub open spec fn nodes_sorted(self) -> bool {
        &&& forall|i: int, j: int|
            0 <= i < j < self.nodes@.len() ==> node_before(
                #[trigger] self.nodes@[i],
                #[trigger] self.nodes@[j],
            )
        &&& forall|i: int, j: int|
            0 <= i < j < self.nodes@.len()
                ==> (#[trigger] self.nodes@[i]).id != (#[trigger] self.nodes@[j]).id
    }

    pub open spec fn nodes_ok(self) -> bool {
        &&& 1 <= self.inputs
        &&& 1 <= self.outputs
        &&& self.inputs + self.outputs <= self.nodes@.len()
        &&& self.inputs_ok()
        &&& self.outputs_ok()
        &&& self.hidden_ok()
        &&& self.nodes_sorted()
    }

    /// Both named nodes exist and an edge from the first to the second
    /// climbs strictly in level and never targets an input node.
    pub open spec fn pair_ok(self, from: usize, to: usize) -> bool {
        exists|i: int, j: int|
            {
                &&& 0 <= i < self.nodes@.len()
                &&& 0 <= j < self.nodes@.len()
                &&& (#[trigger] self.nodes@[i]).id == from
                &&& (#[trigger] self.nodes@[j]).id == to
                &&& self.nodes@[i].level < self.nodes@[j].level
                &&& self.nodes@[j].role != Role::Input
            }
    }

    /// Both endpoints of the connection exist, the edge climbs strictly in
    /// level, and it never targets an input node.
    pub open spec fn conn_endpoints_ok(self, c: Connection) -> bool {
        self.pair_ok(c.from, c.to)
    }

    /// Whether some gene already joins the ordered pair.
    pub open spec fn has_conn_pair(self, from: usize, to: usize) -> bool {
        exists|j: int|
            0 <= j < self.conns@.len() && (#[trigger] self.conns@[j]).from == from
                && self.conns@[j].to == to
    }

    /// No two connection genes join the same ordered pair of nodes.
    pub open spec fn conns_distinct(self) -> bool {
        forall|k: int, l: int|
            0 <= k < l < self.conns@.len() ==> !((#[trigger] self.conns@[k]).from
                == (#[trigger] self.conns@[l]).from && self.conns@[k].to == self.conns@[l].to)
    }

    pub open spec fn conns_ok(self) -> bool {
        &&& forall|k: int|
            0 <= k < self.conns@.len() ==> self.conn_endpoints_ok(#[trigger] self.conns@[k])
        &&& self.conns_distinct()
    }

    /// The structural invariant of a genome: fixed input and output nodes,
    /// sorted distinct nodes, and connections that strictly climb in level,
    /// so that the enabled-connection graph is feed-forward.
    pub open spec fn wf(self) -> bool {
        self.nodes_ok() && self.conns_ok()
    }

    /// Creates the minimal genome: only the fixed input and output nodes and
    /// no connections at all. (The initial connection set is empty by design,
    /// fixed for reproducibility; structure only arises through mutation.)
    pub fn new(inputs: usize, outputs: usize) -> (r: Genome)
        requires
            1 <= inputs,
            1 <= outputs,
            inputs + outputs <= usize::MAX,
        ensures
            r.wf(),
            r.inputs == inputs,
            r.outputs == outputs,
            r.nodes@.len() == inputs + outputs,
            r.conns@.len() == 0,
            r.ids_below((inputs + outputs) as usize),
    {
        let mut nodes: Vec<Node> = Vec::new();
        let mut i: usize = 0;
        while i < inputs
            invariant
                i <= inputs,
                nodes@.len() == i,
                forall|k: int|
                    0 <= k < i ==> (#[trigger] nodes@[k]) == (Node {
                        id: k as usize,
                        level: 0u64,
                        role: Role::Input,
                    }),
            decreases inputs - i,
        {
            nodes.push(Node { id: i, level: 0, role: Role::Input });
            i = i + 1;
        }
        let mut j: usize = 0;
        while j < outputs
            invariant
                j <= outputs,
                inputs + outputs <= usize::MAX,
                nodes@.len() == inputs + j,
                forall|k: int|
                    0 <= k < inputs ==> (#[trigger] nodes@[k]) == (Node {
                        id: k as usize,
                        level: 0u64,
                        role: Role::Input,
                    }),
                forall|k: int|
                    inputs <= k < inputs + j ==> (#[trigger] nodes@[k]) == (Node {
                        id: k as usize,
                        level: u64::MAX,
                        role: Role::Output,
                    }),
            decreases outputs - j,
        {
            nodes.push(Node { id: inputs + j, level: u64::MAX, role: Role::Output });
            j = j + 1;
        }
        let r = Genome { inputs, outputs, nodes, conns: Vec::new() };
        proof {
            assert(r.outputs_ok()) by {
                assert forall|i: int|
                    r.nodes@.len() - r.outputs <= i < r.nodes@.len() implies (
                #[trigger] r.nodes@[i]) == (Node {
                    id: (r.inputs + i - (r.nodes@.len() - r.outputs)) as usize,
                    level: u64::MAX,
                    role: Role::Output,
                }) by {
                    assert(r.nodes@.len() == inputs + outputs);
                }
            }
        }
        r
    }

    /// Finds the position of the node with the given id.
    pub(crate) fn index_of_id(&self, id: usize) -> (r: Option<usize>)
        ensures
            match r {
                Some(k) => k < self.nodes@.len() && self.nodes@[k as int].id == id,
                None => forall|j: int| 0 <= j < self.nodes@.len() ==> self.nodes@[j].id != id,
            },
    {
        let mut k: usize = 0;
        while k < self.nodes.len()
            invariant
                k <= self.nodes@.len(),
                forall|j: int| 0 <= j < k ==> self.nodes@[j].id != id,
            decreases self.nodes@.len() - k,
        {
            if self.nodes[k].id == id {
                return Some(k);
            }
            k = k + 1;
        }
        None
    }

    /// An exact structural copy: the unit of reproduction, applied to each
    /// selected parent before mutation.
    pub fn duplicate(&self) -> (r: Genome)
        ensures
            r.inputs == self.inputs,
            r.outputs == self.outputs,
            r.nodes@ == self.nodes@,
            r.conns@ == self.conns@,
    {
        let nodes = self.nodes.clone();
        let conns = self.conns.clone();
        proof {
            assert(nodes@ =~= self.nodes@);
            assert(conns@ =~= self.conns@);
        }
        Genome { inputs: self.inputs, outputs: self.outputs, nodes, conns }
    }

    /// Every node id lies below the given bound; the population keeps its
    /// fresh-node counter above every id it ever handed out, so a counter
    /// value is never an existing node's id.
    pub open spec fn ids_below(self, bound: usize) -> bool {
        forall|i: int| 0 <= i < self.nodes@.len() ==> (#[trigger] self.nodes@[i]).id < bound
    }

    /// Weight mutation: the connection keeps its endpoints, enabled flag and
    /// identity, and takes the freshly drawn weight.
    pub fn redraw_weight(&mut self, k: usize, w: u64)
        requires
            old(self).wf(),
            k < old(self).conns@.len(),
        ensures
            final(self).wf(),
            final(self).inputs == old(self).inputs,
            final(self).outputs == old(self).outputs,
            final(self).nodes@ == old(self).nodes@,
            final(self).conns@ == old(self).conns@.update(
                k as int,
                Connection {
                    from: old(self).conns@[k as int].from,
                    to: old(self).conns@[k as int].to,
                    weight: w,
                    enabled: old(self).conns@[k as int].enabled,
                    innovation: old(self).conns@[k as int].innovation,
                },
            ),
    {
        let mut c = self.conns[k];
        c.weight = w;
        self.conns[k] = c;
        proof {
            assert forall|l: int| 0 <= l < self.conns@.len() implies self.conn_endpoints_ok(
                #[trigger] self.conns@[l],
            ) by {
                assert(old(self).conn_endpoints_ok(old(self).conns@[l]));
                assert(self.conns@[l].from == old(self).conns@[l].from);
                assert(self.conns@[l].to == old(self).conns@[l].to);
            }
        }
    }

    /// Structural mutation: a new connection gene between two previously
    /// unconnected nodes, joining the lower-level one to the higher-level
    /// one with the given weight and the registry's identity for that
    /// shape. The candidate pair is skipped, never forced, and everything
    /// left unchanged, when no feed-forward edge can join it (equal levels)
    /// or the genome already carries the pair.
    pub fn add_connection(&mut self, a: usize, b: usize, w: u64, table: &mut InnovationTable)
        requires
            old(self).wf(),
            a < old(self).nodes@.len(),
            b < old(self).nodes@.len(),
        ensures
            final(self).wf(),
            final(self).inputs == old(self).inputs,
            final(self).outputs == old(self).outputs,
            final(self).nodes@ == old(self).nodes@,
            final(table).next_node == old(table).next_node,
            old(self).conns@.len() <= final(self).conns@.len(),
            ({
                let na = old(self).nodes@[a as int];
                let nb = old(self).nodes@[b as int];
                let from = if na.level < nb.level { na.id } else { nb.id };
                let to = if na.level < nb.level { nb.id } else { na.id };
                if na.level == nb.level || old(self).has_conn_pair(from, to) {
                    final(self).conns@ == old(self).conns@ && final(table).pairs@ == old(
                        table,
                    ).pairs@
                } else {
                    final(self).conns@ == old(self).conns@.push(
                        Connection {
                            from,
                            to,
                            weight: w,
                            enabled: true,
                            innovation: spec_innovation_in(old(table).pairs@, from, to) as u64,
                        },
                    ) && final(table).pairs@ == spec_pairs_after(old(table).pairs@, from, to)
                }
            }),
    {
        let na = self.nodes[a];
        let nb = self.nodes[b];
        let (f, t) = if na.level < nb.level {
            (a, b)
        } else if nb.level < na.level {
            (b, a)
        } else {
            return ;
        };
        let from_id = self.nodes[f].id;
        let to_id = self.nodes[t].id;
        let mut k: usize = 0;
        while k < self.conns.len()
            invariant
                self.wf(),
                *self == *old(self),
                table.pairs@ == old(table).pairs@,
                table.next_node == old(table).next_node,
                a < self.nodes@.len(),
                b < self.nodes@.len(),
                self.nodes@[a as int].level != self.nodes@[b as int].level,
                f == if self.nodes@[a as int].level < self.nodes@[b as int].level { a } else { b },
                t == if self.nodes@[a as int].level < self.nodes@[b as int].level { b } else { a },
                t < self.nodes@.len(),
                from_id == self.nodes@[f as int].id,
                to_id == self.nodes@[t as int].id,
                self.nodes@[f as int].level < self.nodes@[t as int].level,
                k <= self.conns@.len(),
                forall|j: int|
                    0 <= j < k ==> !((#[trigger] self.conns@[j]).from == from_id
                        && self.conns@[j].to == to_id),
            decreases self.conns@.len() - k,
        {
            let c = self.conns[k];
            if c.from == from_id && c.to == to_id {
                proof {
                    assert(self.conns@[k as int].from == from_id && self.conns@[k as int].to
                        == to_id);
                    assert(self.has_conn_pair(from_id, to_id));
                }
                return ;
            }
            k = k + 1;
        }
        proof {
            assert(!self.has_conn_pair(from_id, to_id));
        }
        let innov = table.innovation_for(from_id, to_id);
        let c = Connection { from: from_id, to: to_id, weight: w, enabled: true, innovation: innov };
        proof {
            assert(innov == spec_innovation_in(old(table).pairs@, from_id, to_id) as u64);
            // the target sits at a strictly positive level, so it is no input
            if t < self.inputs {
                assert(self.nodes@[t as int].level == 0);
                assert(false);
            }
            assert(self.conn_endpoints_ok(c));
        }
        self.conns.push(c);
    }

    /// Structural mutation: splits an enabled connection by inserting a new
    /// hidden node halfway between its endpoints' levels. The split gene is
    /// disabled in place and kept, and exactly two fresh genes route through
    /// the new node: the incoming one with weight 1.0, the outgoing one with
    /// the split gene's weight, each under the registry's identity for its
    /// shape. A disabled gene, one whose endpoints leave no level gap, or an
    /// exhausted id space leaves everything unchanged: the candidate is
    /// skipped, never forced.
    #[verifier::rlimit(100)]
    pub fn split_connection(&mut self, k: usize, table: &mut InnovationTable)
        requires
            old(self).wf(),
            k < old(self).conns@.len(),
            old(self).ids_below(old(table).next_node),
            old(self).inputs + old(self).outputs <= old(table).next_node,
        ensures
            final(self).wf(),
            final(self).inputs == old(self).inputs,
            final(self).outputs == old(self).outputs,
            old(table).next_node <= final(table).next_node,
            final(self).ids_below(final(table).next_node),
            ({
                let c = old(self).conns@[k as int];
                let lo = spec_level_of(*old(self), c.from);
                let hi = spec_level_of(*old(self), c.to);
                let mid = (lo + (hi - lo) / 2) as u64;
                let nid = old(table).next_node;
                if !c.enabled || mid == lo || nid == usize::MAX {
                    &&& final(self).nodes@ == old(self).nodes@
                    &&& final(self).conns@ == old(self).conns@
                    &&& final(table).pairs@ == old(table).pairs@
                    &&& final(table).next_node == old(table).next_node
                } else {
                    let newn = Node { id: nid, level: mid, role: Role::Hidden };
                    let pairs0 = old(table).pairs@;
                    let pairs1 = spec_pairs_after(pairs0, c.from, nid);
                    &&& exists|p: int|
                        0 <= p <= old(self).nodes@.len() && final(self).nodes@ == old(self).nodes@.insert(p, newn)
                    &&& final(self).conns@ == old(self).conns@.update(
                        k as int,
                        Connection {
                            from: c.from,
                            to: c.to,
                            weight: c.weight,
                            enabled: false,
                            innovation: c.innovation,
                        },
                    ).push(
                        Connection {
                            from: c.from,
                            to: nid,
                            weight: ONE_BITS,
                            enabled: true,
                            innovation: spec_innovation_in(pairs0, c.from, nid) as u64,
                        },
                    ).push(
                        Connection {
                            from: nid,
                            to: c.to,
                            weight: c.weight,
                            enabled: true,
                            innovation: spec_innovation_in(pairs1, nid, c.to) as u64,
                        },
                    )
                    &&& final(table).next_node == nid + 1
                    &&& final(table).pairs@ == spec_pairs_after(pairs1, nid, c.to)
                }
            }),
    {
        let c = self.conns[k];
        if !c.enabled {
            return ;
        }
        proof {
            assert(self.conn_endpoints_ok(self.conns@[k as int]));
        }
        let ghost (i0, j0) = choose|i0: int, j0: int|
            {
                &&& 0 <= i0 < self.nodes@.len()
                &&& 0 <= j0 < self.nodes@.len()
                &&& (#[trigger] self.nodes@[i0]).id == c.from
                &&& (#[trigger] self.nodes@[j0]).id == c.to
                &&& self.nodes@[i0].level < self.nodes@[j0].level
                &&& self.nodes@[j0].role != Role::Input
            };
        let ia = match self.index_of_id(c.from) {
            Some(x) => x,
            None => {
                proof {
                    assert(false);
                }
                return ;
            },
        };
        let ib = match self.index_of_id(c.to) {
            Some(x) => x,
            None => {
                proof {
                    assert(false);
                }
                return ;
            },
        };
        proof {
            assert(ia as int == i0);
            assert(ib as int == j0);
        }
        let lo = self.nodes[ia].level;
        let hi = self.nodes[ib].level;
        proof {
            let ci = choose|x: int| 0 <= x < self.nodes@.len() && self.nodes@[x].id == c.from;
            assert(self.nodes@[ia as int].id == c.from);
            if ci != ia as int {
                assert(self.nodes@[ci].id != self.nodes@[ia as int].id);
            }
            assert(spec_level_of(*old(self), c.from) == lo);
            let cj = choose|x: int| 0 <= x < self.nodes@.len() && self.nodes@[x].id == c.to;
            assert(self.nodes@[ib as int].id == c.to);
            if cj != ib as int {
                assert(self.nodes@[cj].id != self.nodes@[ib as int].id);
            }
            assert(spec_level_of(*old(self), c.to) == hi);
        }
        let mid = lo + (hi - lo) / 2;
        if mid == lo {
            return ;
        }
        let new_id = match table.fresh_node() {
            Some(id) => id,
            None => {
                return ;
            },
        };
        let newn = Node { id: new_id, level: mid, role: Role::Hidden };
        let ghost old_nodes = self.nodes@;
        let mut p: usize = 0;
        while p < self.nodes.len() && node_before_exec(self.nodes[p], newn)
            invariant
                self.nodes@ == old_nodes,
                p <= self.nodes@.len(),
                forall|q: int| 0 <= q < p ==> node_before(#[trigger] self.nodes@[q], newn),
            decreases self.nodes@.len() - p,
        {
            p = p + 1;
        }
        proof {
            // every node differs from the fresh one, so the order is total here
            assert forall|q: int| p <= q < old_nodes.len() implies node_before(
                newn,
                #[trigger] old_nodes[q],
            ) by {
                assert(old_nodes[q].id != new_id);
                if q > p {
                    assert(node_before(old_nodes[p as int], old_nodes[q]));
                }
                if p < old_nodes.len() {
                    assert(!node_before(old_nodes[p as int], newn));
                }
            }
            // the insertion point lies inside the hidden band
            if p < self.inputs {
                assert(node_before(old_nodes[p as int], newn));
                assert(false);
            }
            if p > old_nodes.len() - self.outputs {
                assert(node_before(old_nodes[p as int - 1], newn));
                assert(false);
            }
            old_nodes.insert_ensures(p as int, newn);
        }
        self.nodes.insert(p, newn);
        let mut c2 = c;
        c2.enabled = false;
        self.conns[k] = c2;
        let innov1 = table.innovation_for(c.from, new_id);
        self.conns.push(
            Connection {
                from: c.from,
                to: new_id,
                weight: ONE_BITS,
                enabled: true,
                innovation: innov1,
            },
        );
        let innov2 = table.innovation_for(new_id, c.to);
        self.conns.push(
            Connection {
                from: new_id,
                to: c.to,
                weight: c.weight,
                enabled: true,
                innovation: innov2,
            },
        );
        proof {
            let g = *self;
            let old_g = *old(self);
            assert(g.nodes@ == old_nodes.insert(p as int, newn));
            assert forall|q: int| 0 <= q < old_nodes.len() implies (#[trigger] old_nodes[q]).id
                != newn.id by {
                assert(old_nodes[q].id < new_id);
            }
            assert(g.conns@[k as int].from == c.from && g.conns@[k as int].to == c.to);
            lemma_split_nodes_ok(old_g, g, p as int, newn);
            assert(g.nodes@[p as int] == newn) by {
                old_nodes.insert_ensures(p as int, newn);
            }
            lemma_split_endpoints(old_g, g, p as int, newn, k as int, c, i0, j0);
            lemma_split_conns_distinct(old_g, g, newn, k as int, c);
            assert(g.wf());
            assert forall|q: int| 0 <= q < g.nodes@.len() implies (#[trigger] g.nodes@[q]).id
                < final(table).next_node by {
                if q < p {
                    assert(g.nodes@[q] == old_nodes[q]);
                } else if q == p {
                    assert(g.nodes@[q] == newn);
                } else {
                    assert(g.nodes@[q] == old_nodes[q - 1]);
                }
            }
        }
    }
}

/// Inserting a fresh hidden node at its ordered position keeps the node set
/// of a genome well shaped: inputs in front, outputs in back, hidden nodes
/// sorted and distinct in between.
proof fn lemma_split_nodes_ok(old_g: Genome, g: Genome, p: int, newn: Node)
    requires
        old_g.nodes_ok(),
        newn.role == Role::Hidden,
        0 < newn.level < u64::MAX,
        old_g.inputs + old_g.outputs <= newn.id,
        forall|q: int| 0 <= q < old_g.nodes@.len() ==> (#[trigger] old_g.nodes@[q]).id != newn.id,
        0 <= p <= old_g.nodes@.len(),
        forall|q: int| 0 <= q < p ==> node_before(#[trigger] old_g.nodes@[q], newn),
        forall|q: int|
            p <= q < old_g.nodes@.len() ==> node_before(newn, #[trigger] old_g.nodes@[q]),
        g.inputs == old_g.inputs,
        g.outputs == old_g.outputs,
        g.nodes@ == old_g.nodes@.insert(p, newn),
    ensures
        g.nodes_ok(),
{
    let old_nodes = old_g.nodes@;
    old_nodes.insert_ensures(p, newn);
    // the insertion point lies inside the hidden band
    if p < old_g.inputs {
        assert(node_before(old_nodes[p], newn));
        assert(false);
    }
    if p > old_nodes.len() - old_g.outputs {
        assert(node_before(old_nodes[p - 1], newn));
        assert(false);
    }
    assert forall|x: int, y: int| 0 <= x < y < g.nodes@.len() implies node_before(
        #[trigger] g.nodes@[x],
        #[trigger] g.nodes@[y],
    ) && g.nodes@[x].id != g.nodes@[y].id by {
        if y < p {
        } else if x >= p + 1 {
        } else if x < p && y == p {
            assert(g.nodes@[y] == newn);
        } else if x == p {
            assert(g.nodes@[x] == newn);
            assert(node_before(newn, old_nodes[y - 1]));
        } else {
            // x < p < y
            assert(g.nodes@[x] == old_nodes[x]);
            assert(g.nodes@[y] == old_nodes[y - 1]);
            if x == y - 1 {
                assert(node_before(old_nodes[x], newn));
                assert(node_before(newn, old_nodes[y - 1]));
                assert(false);
            }
        }
        assert(g.nodes@[x].id != g.nodes@[y].id);
    }
    assert(g.inputs_ok());
    assert(g.outputs_ok()) by {
        assert forall|i: int| g.nodes@.len() - g.outputs <= i < g.nodes@.len() implies (
        #[trigger] g.nodes@[i]) == (Node {
            id: (g.inputs + i - (g.nodes@.len() - g.outputs)) as usize,
            level: u64::MAX,
            role: Role::Output,
        }) by {
            assert(g.nodes@[i] == old_nodes[i - 1]);
            assert(old_nodes[i - 1] == (Node {
                id: (old_g.inputs + (i - 1) - (old_nodes.len() - old_g.outputs)) as usize,
                level: u64::MAX,
                role: Role::Output,
            }));
        }
    }
    assert(g.hidden_ok()) by {
        assert forall|i: int| g.inputs <= i < g.nodes@.len() - g.outputs implies {
            &&& (#[trigger] g.nodes@[i]).role == Role::Hidden
            &&& 0 < g.nodes@[i].level < u64::MAX
            &&& g.inputs + g.outputs <= g.nodes@[i].id
        } by {
            if i < p {
                assert(g.nodes@[i] == old_nodes[i]);
            } else if i == p {
                assert(g.nodes@[i] == newn);
            } else {
                assert(g.nodes@[i] == old_nodes[i - 1]);
            }
        }
    }
}

/// The two named nodes are a valid feed-forward pair: witnessed directly
/// by their positions.
proof fn lemma_pair_witness(g: Genome, from: usize, to: usize, i: int, j: int)
    requires
        0 <= i < g.nodes@.len(),
        0 <= j < g.nodes@.len(),
        g.nodes@[i].id == from,
        g.nodes@[j].id == to,
        g.nodes@[i].level < g.nodes@[j].level,
        g.nodes@[j].role != Role::Input,
    ensures
        g.pair_ok(from, to),
{
}

/// A valid feed-forward pair stays valid when a node is inserted: both
/// witnesses survive, each shifted past the insertion point if need be.
proof fn lemma_pair_survives_insert(
    old_g: Genome,
    g: Genome,
    p: int,
    newn: Node,
    from: usize,
    to: usize,
)
    requires
        old_g.pair_ok(from, to),
        0 <= p <= old_g.nodes@.len(),
        g.nodes@ == old_g.nodes@.insert(p, newn),
    ensures
        g.pair_ok(from, to),
{
    let (x0, y0) = choose|x0: int, y0: int|
        {
            &&& 0 <= x0 < old_g.nodes@.len()
            &&& 0 <= y0 < old_g.nodes@.len()
            &&& (#[trigger] old_g.nodes@[x0]).id == from
            &&& (#[trigger] old_g.nodes@[y0]).id == to
            &&& old_g.nodes@[x0].level < old_g.nodes@[y0].level
            &&& old_g.nodes@[y0].role != Role::Input
        };
    old_g.nodes@.insert_ensures(p, newn);
    let x1 = if x0 < p {
        x0
    } else {
        x0 + 1
    };
    let y1 = if y0 < p {
        y0
    } else {
        y0 + 1
    };
    assert(g.nodes@[x1] == old_g.nodes@[x0]);
    assert(g.nodes@[y1] == old_g.nodes@[y0]);
    lemma_pair_witness(g, from, to, x1, y1);
}

/// Rewiring a split connection through the fresh node keeps every
/// connection gene's endpoints valid: old endpoints survive the insertion,
/// and the two fresh genes straddle the fresh node's level.
proof fn lemma_split_endpoints(
    old_g: Genome,
    g: Genome,
    p: int,
    newn: Node,
    k: int,
    c: Connection,
    i0: int,
    j0: int,
)
    requires
        old_g.wf(),
        0 <= k < old_g.conns@.len(),
        c == old_g.conns@[k],
        0 <= i0 < old_g.nodes@.len(),
        0 <= j0 < old_g.nodes@.len(),
        old_g.nodes@[i0].id == c.from,
        old_g.nodes@[j0].id == c.to,
        old_g.nodes@[i0].level < newn.level < old_g.nodes@[j0].level,
        old_g.nodes@[j0].role != Role::Input,
        newn.role == Role::Hidden,
        0 <= p <= old_g.nodes@.len(),
        g.nodes@ == old_g.nodes@.insert(p, newn),
        g.nodes@[p] == newn,
        g.conns@.len() == old_g.conns@.len() + 2,
        forall|l: int|
            0 <= l < old_g.conns@.len() && l != k ==> (#[trigger] g.conns@[l]) == old_g.conns@[l],
        g.conns@[k].from == c.from && g.conns@[k].to == c.to,
        g.conns@[old_g.conns@.len() as int].from == c.from && g.conns@[old_g.conns@.len() as int].to
            == newn.id,
        g.conns@[old_g.conns@.len() as int + 1].from == newn.id && g.conns@[old_g.conns@.len()
            as int + 1].to == c.to,
    ensures
        forall|l: int| 0 <= l < g.conns@.len() ==> g.conn_endpoints_ok(#[trigger] g.conns@[l]),
{
    let old_nodes = old_g.nodes@;
    old_nodes.insert_ensures(p, newn);
    assert forall|l: int| 0 <= l < g.conns@.len() implies g.conn_endpoints_ok(
        #[trigger] g.conns@[l],
    ) by {
        if l < old_g.conns@.len() {
            assert(old_g.conn_endpoints_ok(old_g.conns@[l]));
            assert(g.conns@[l].from == old_g.conns@[l].from);
            assert(g.conns@[l].to == old_g.conns@[l].to);
            lemma_pair_survives_insert(old_g, g, p, newn, g.conns@[l].from, g.conns@[l].to);
        } else if l == old_g.conns@.len() {
            // from the split source up to the fresh node
            let x1 = if i0 < p {
                i0
            } else {
                i0 + 1
            };
            assert(g.nodes@[x1] == old_nodes[i0]);
            lemma_pair_witness(g, c.from, newn.id, x1, p);
        } else {
            // from the fresh node up to the split target
            let y1 = if j0 < p {
                j0
            } else {
                j0 + 1
            };
            assert(g.nodes@[y1] == old_nodes[j0]);
            lemma_pair_witness(g, newn.id, c.to, p, y1);
        }
    }
}

/// The rewired gene set stays pairwise distinct: the fresh node's id occurs
/// in no old gene, so the two fresh genes collide with nothing.
proof fn lemma_split_conns_distinct(
    old_g: Genome,
    g: Genome,
    newn: Node,
    k: int,
    c: Connection,
)
    requires
        old_g.wf(),
        0 <= k < old_g.conns@.len(),
        c == old_g.conns@[k],
        forall|q: int| 0 <= q < old_g.nodes@.len() ==> (#[trigger] old_g.nodes@[q]).id != newn.id,
        g.conns@.len() == old_g.conns@.len() + 2,
        forall|l: int|
            0 <= l < old_g.conns@.len() && l != k ==> (#[trigger] g.conns@[l]) == old_g.conns@[l],
        g.conns@[k].from == c.from && g.conns@[k].to == c.to,
        g.conns@[old_g.conns@.len() as int].from == c.from && g.conns@[old_g.conns@.len() as int].to
            == newn.id,
        g.conns@[old_g.conns@.len() as int + 1].from == newn.id && g.conns@[old_g.conns@.len()
            as int + 1].to == c.to,
    ensures
        g.conns_distinct(),
{
    // every old endpoint is an existing node's id, hence not the fresh id
    assert forall|x: int| 0 <= x < old_g.conns@.len() implies (#[trigger] g.conns@[x]).from
        != newn.id && g.conns@[x].to != newn.id by {
        assert(old_g.conn_endpoints_ok(old_g.conns@[x]));
        let (x0, y0) = choose|x0: int, y0: int|
            {
                &&& 0 <= x0 < old_g.nodes@.len()
                &&& 0 <= y0 < old_g.nodes@.len()
                &&& (#[trigger] old_g.nodes@[x0]).id == old_g.conns@[x].from
                &&& (#[trigger] old_g.nodes@[y0]).id == old_g.conns@[x].to
                &&& old_g.nodes@[x0].level < old_g.nodes@[y0].level
                &&& old_g.nodes@[y0].role != Role::Input
            };
        assert(g.conns@[x].from == old_g.conns@[x].from);
        assert(g.conns@[x].to == old_g.conns@[x].to);
    }
    assert forall|x: int, y: int| 0 <= x < y < g.conns@.len() implies !((#[trigger] g.conns@[x]).from
        == (#[trigger] g.conns@[y]).from && g.conns@[x].to == g.conns@[y].to) by {
        if y < old_g.conns@.len() {
            assert(g.conns@[x].from == old_g.conns@[x].from && g.conns@[x].to
                == old_g.conns@[x].to);
            assert(g.conns@[y].from == old_g.conns@[y].from && g.conns@[y].to
                == old_g.conns@[y].to);
        } else if y == old_g.conns@.len() {
            assert(g.conns@[x].to != newn.id);
        } else {
            if x < old_g.conns@.len() {
                assert(g.conns@[x].from != newn.id);
            }
        }
    }
}

/// The level of the node with the given id.
pub open spec fn spec_level_of(g: Genome, id: usize) -> u64 {
    g.nodes@[choose|i: int| 0 <= i < g.nodes@.len() && g.nodes@[i].id == id].level
}

/// Every connection of a well-formed genome climbs strictly in level.
proof fn lemma_conn_climbs(g: Genome, c: Connection)
    requires
        g.wf(),
        g.conn_endpoints_ok(c),
    ensures
        spec_level_of(g, c.from) < spec_level_of(g, c.to),
{
    let (i, j) = choose|i: int, j: int|
        {
            &&& 0 <= i < g.nodes@.len()
            &&& 0 <= j < g.nodes@.len()
            &&& (#[trigger] g.nodes@[i]).id == c.from
            &&& (#[trigger] g.nodes@[j]).id == c.to
            &&& g.nodes@[i].level < g.nodes@[j].level
            &&& g.nodes@[j].role != Role::Input
        };
    let i2 = choose|i2: int| 0 <= i2 < g.nodes@.len() && g.nodes@[i2].id == c.from;
    let j2 = choose|j2: int| 0 <= j2 < g.nodes@.len() && g.nodes@[j2].id == c.to;
    // ids are unique, so the chosen positions are the witnessed ones
    if i2 != i {
        assert(g.nodes@[i2].id != g.nodes@[i].id);
    }
    if j2 != j {
        assert(g.nodes@[j2].id != g.nodes@[j].id);
    }
}

/// No chain of connections of a well-formed genome returns to its start:
/// every connection climbs strictly in level, so any walk along connection
/// genes — the enabled ones of the evaluation graph included — ends at a
/// node strictly above the one it left. The connection graph stays acyclic
/// under every sequence of mutations, since each mutation preserves the
/// genome invariant.
pub proof fn lemma_no_connection_cycle(g: Genome, walk: Seq<int>)
    requires
        g.wf(),
        walk.len() >= 1,
        forall|t: int| 0 <= t < walk.len() ==> 0 <= #[trigger] walk[t] < g.conns@.len(),
        forall|t: int|
            0 <= t < walk.len() - 1 ==> (#[trigger] g.conns@[walk[t]]).to == g.conns@[walk[t
                + 1]].from,
    ensures
        spec_level_of(g, g.conns@[walk[0]].from) < spec_level_of(
            g,
            g.conns@[walk[walk.len() - 1]].to,
        ),
        g.conns@[walk[0]].from != g.conns@[walk[walk.len() - 1]].to,
    decreases walk.len(),
{
    let last = walk.len() - 1;
    if walk.len() == 1 {
        lemma_conn_climbs(g, g.conns@[walk[0]]);
    } else {
        let prefix = walk.drop_last();
        assert forall|t: int| 0 <= t < prefix.len() implies 0 <= #[trigger] prefix[t]
            < g.conns@.len() by {
            assert(prefix[t] == walk[t]);
        }
        assert forall|t: int| 0 <= t < prefix.len() - 1 implies (
        #[trigger] g.conns@[prefix[t]]).to == g.conns@[prefix[t + 1]].from by {
            assert(prefix[t] == walk[t] && prefix[t + 1] == walk[t + 1]);
        }
        lemma_no_connection_cycle(g, prefix);
        lemma_conn_climbs(g, g.conns@[walk[last]]);
        assert(g.conns@[walk[last - 1]].to == g.conns@[walk[last]].from);
        assert(prefix[0] == walk[0] && prefix[prefix.len() - 1] == walk[last - 1]);
    }
}

/// Strict order of nodes by `(level, id)`, as executable code.
fn node_before_exec(a: Node, b: Node) -> (r: bool)
    ensures
        r == node_before(a, b),
{
    a.level < b.level || (a.level == b.level && a.id < b.id)
}

/// The bit pattern of the double 1.0: the weight of the incoming half of a
/// split connection.
pub const ONE_BITS: u64 = 0x3FF0_0000_0000_0000;

/// The shared structural bookkeeping of one population: the ordered registry
/// of connection shapes ever created — a shape's position is its structural
/// identity, so the same shape arising in two genomes carries the same
/// innovation marker — and the monotone counter handing out fresh node ids.
pub struct InnovationTable {
    pub pairs: Vec<(usize, usize)>,
    pub next_node: usize,
}

/// Whether the pair occurs in the registry.
pub open spec fn has_pair_in(pairs: Seq<(usize, usize)>, from: usize, to: usize) -> bool {
    exists|k: int| 0 <= k < pairs.len() && pairs[k] == (from, to)
}

/// The position of the pair's first occurrence, or the length when the pair
/// is absent: the structural identity the registry assigns to the shape.
pub open spec fn spec_innovation_in(pairs: Seq<(usize, usize)>, from: usize, to: usize) -> int
    decreases pairs.len(),
{
    if pairs.len() == 0 {
        0
    } else if pairs[0] == (from, to) {
        0
    } else {
        1 + spec_innovation_in(pairs.drop_first(), from, to)
    }
}

/// The registry contents after a shape is registered: unchanged when the
/// shape is known, appended when it is new.
pub open spec fn spec_pairs_after(
    pairs: Seq<(usize, usize)>,
    from: usize,
    to: usize,
) -> Seq<(usize, usize)> {
    if has_pair_in(pairs, from, to) {
        pairs
    } else {
        pairs.push((from, to))
    }
}

/// The first-occurrence position is determined by what lies before it.
proof fn lemma_innovation_at(pairs: Seq<(usize, usize)>, from: usize, to: usize, k: int)
    requires
        0 <= k <= pairs.len(),
        forall|j: int| 0 <= j < k ==> pairs[j] != (from, to),
        k == pairs.len() || pairs[k] == (from, to),
    ensures
        spec_innovation_in(pairs, from, to) == k,
    decreases pairs.len(),
{
    if pairs.len() == 0 {
    } else if pairs[0] == (from, to) {
        if k > 0 {
            assert(pairs[0] != (from, to));
        }
    } else {
        let rest = pairs.drop_first();
        assert forall|j: int| 0 <= j < k - 1 implies rest[j] != (from, to) by {
            assert(rest[j] == pairs[j + 1]);
        }
        if k - 1 < rest.len() {
            assert(rest[k - 1] == pairs[k]);
        }
        lemma_innovation_at(rest, from, to, k - 1);
    }
}

impl InnovationTable {
    pub open spec fn has_pair(self, from: usize, to: usize) -> bool {
        has_pair_in(self.pairs@, from, to)
    }

    /// The structural identity for the connection shape `(from, to)`: its
    /// position in the registry; a shape seen before keeps its identity, a
    /// new one is appended.
    pub fn innovation_for(&mut self, from: usize, to: usize) -> (r: u64)
        ensures
            final(self).next_node == old(self).next_node,
            old(self).pairs@.len() <= final(self).pairs@.len(),
            r < final(self).pairs@.len(),
            final(self).pairs@[r as int] == (from, to),
            r as int == spec_innovation_in(old(self).pairs@, from, to),
            final(self).pairs@ == spec_pairs_after(old(self).pairs@, from, to),
    {
        let mut k: usize = 0;
        while k < self.pairs.len()
            invariant
                k <= self.pairs@.len(),
                forall|j: int| 0 <= j < k ==> self.pairs@[j] != (from, to),
            decreases self.pairs@.len() - k,
        {
            let pair = self.pairs[k];
            if pair.0 == from && pair.1 == to {
                proof {
                    assert(self.pairs@[k as int] == (from, to));
                    lemma_innovation_at(self.pairs@, from, to, k as int);
                }
                return k as u64;
            }
            k = k + 1;
        }
        proof {
            assert(!has_pair_in(self.pairs@, from, to));
            lemma_innovation_at(self.pairs@, from, to, self.pairs@.len() as int);
        }
        let r = self.pairs.len();
        self.pairs.push((from, to));
        r as u64
    }

    /// A fresh node id, or nothing once the id space is exhausted.
    pub fn fresh_node(&mut self) -> (r: Option<usize>)
        ensures
            final(self).pairs@ == old(self).pairs@,
            match r {
                Some(id) => {
                    &&& id == old(self).next_node
                    &&& id < usize::MAX
                    &&& final(self).next_node == id + 1
                },
                None => old(self).next_node == usize::MAX && final(self).next_node == old(
                    self,
                ).next_node,
            },
    {
        if self.next_node == usize::MAX {
            None
        } else {
            let id = self.next_node;
            self.next_node = id + 1;
            Some(id)
        }
    }
}

/// A gene survives mutation in place: endpoints and structural identity
/// intact, its weight possibly redrawn, its enabled flag only ever turned
/// off — genetic history is retained, never deleted.
pub open spec fn gene_preserved(oldc: Connection, newc: Connection) -> bool {
    &&& newc.from == oldc.from
    &&& newc.to == oldc.to
    &&& newc.innovation == oldc.innovation
    &&& (newc.enabled ==> oldc.enabled)
}

/// The child stands one mutation pass from the parent: the same shape,
/// every parent gene surviving in place, new genes only appended, and at
/// most one hidden node inserted at its ordered position.
pub open spec fn mutation_step(parent: Genome, child: Genome) -> bool {
    &&& child.inputs == parent.inputs
    &&& child.outputs == parent.outputs
    &&& parent.conns@.len() <= child.conns@.len()
    &&& forall|j: int|
        0 <= j < parent.conns@.len() ==> gene_preserved(
            parent.conns@[j],
            #[trigger] child.conns@[j],
        )
    &&& (child.nodes@ == parent.nodes@ || exists|p: int, newn: Node|
        0 <= p <= parent.nodes@.len() && child.nodes@ == parent.nodes@.insert(p, newn))
}

impl Genome {
    /// One mutation pass, with probabilities derived from the population's
    /// rate `rate`, a fixed-point fraction of
    /// [`crate::population::RATE_ONE`]: every connection's weight is redrawn
    /// with probability `rate`; with the lower probability `rate / 4` a new
    /// connection between two previously unconnected nodes is attempted; and
    /// with probability `rate / 8` a random enabled connection is split by a
    /// new hidden node. A structural candidate that would break the
    /// feed-forward invariant is skipped, never forced — and whatever the
    /// draws, the result stands one [`mutation_step`] from the old genome:
    /// every gene is retained in place, disabled ones included.
    #[verifier::rlimit(100)]
    pub fn mutate(&mut self, rate: u64, table: &mut InnovationTable)
        requires
            old(self).wf(),
            old(self).ids_below(old(table).next_node),
            old(self).inputs + old(self).outputs <= old(table).next_node,
        ensures
            final(self).wf(),
            final(self).inputs == old(self).inputs,
            final(self).outputs == old(self).outputs,
            old(table).next_node <= final(table).next_node,
            final(self).ids_below(final(table).next_node),
            old(self).inputs + old(self).outputs <= final(table).next_node,
            mutation_step(*old(self), *final(self)),
    {
        let mut k: usize = 0;
        let n_conns = self.conns.len();
        while k < n_conns
            invariant
                self.wf(),
                n_conns == self.conns@.len(),
                n_conns == old(self).conns@.len(),
                self.inputs == old(self).inputs,
                self.outputs == old(self).outputs,
                self.nodes@ == old(self).nodes@,
                k <= n_conns,
                forall|j: int|
                    0 <= j < n_conns ==> gene_preserved(
                        old(self).conns@[j],
                        #[trigger] self.conns@[j],
                    ),
            decreases n_conns - k,
        {
            if crate::rng::coin(rate) {
                let w = crate::rng::signed_weight_bits();
                self.redraw_weight(k, w);
            }
            k = k + 1;
        }
        if crate::rng::coin(rate / 4) {
            let n = self.nodes.len();
            let a = crate::rng::rand_index(n);
            let b = crate::rng::rand_index(n);
            let w = crate::rng::signed_weight_bits();
            let ghost pre = *self;
            self.add_connection(a, b, w, table);
            proof {
                assert forall|j: int| 0 <= j < old(self).conns@.len() implies gene_preserved(
                    old(self).conns@[j],
                    #[trigger] self.conns@[j],
                ) by {
                    assert(self.conns@[j] == pre.conns@[j]);
                }
            }
        }
        if crate::rng::coin(rate / 8) {
            if self.conns.len() > 0 {
                let k2 = crate::rng::rand_index(self.conns.len());
                let ghost pre = *self;
                let ghost tpre = *table;
                self.split_connection(k2, table);
                proof {
                    let c = pre.conns@[k2 as int];
                    let lo = spec_level_of(pre, c.from);
                    let hi = spec_level_of(pre, c.to);
                    let midv = ((lo + (hi - lo) / 2) as u64);
                    let nid = tpre.next_node;
                    if !c.enabled || midv == lo || nid == usize::MAX {
                        assert(self.conns@ == pre.conns@);
                        assert(self.nodes@ == pre.nodes@);
                    } else {
                        assert forall|j: int|
                            0 <= j < old(self).conns@.len() implies gene_preserved(
                            old(self).conns@[j],
                            #[trigger] self.conns@[j],
                        ) by {
                            if j == k2 {
                                assert(gene_preserved(pre.conns@[j], self.conns@[j]));
                            } else {
                                assert(self.conns@[j] == pre.conns@[j]);
                            }
                        }
                        let newn = Node { id: nid, level: midv, role: Role::Hidden };
                        let p = choose|p: int|
                            0 <= p <= pre.nodes@.len() && self.nodes@ == pre.nodes@.insert(
                                p,
                                newn,
                            );
                        assert(self.nodes@ == old(self).nodes@.insert(p, newn));
                    }
                }
            }
        }
        proof {
            assert(mutation_step(*old(self), *self));
        }
    }
}

} // verus!
