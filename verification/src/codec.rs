use vstd::prelude::*;

use vstd::bytes::{spec_u64_from_le_bytes, spec_u64_to_le_bytes, u64_from_le_bytes, u64_to_le_bytes};
use vstd::slice::slice_subrange;

use crate::activation::Activation;
use crate::network::{lemma_predict_by_structure, spec_predict, Arith, Edge, NetNode, Network};

verus! {

/// Failures of [`Network::deserialize`]: malformed persisted bytes, kept
/// distinct from any I/O failure of the embedding host.
#[derive(Clone, Copy, PartialEq, Eq, Structural, Debug)]
pub enum DecodeError {
    /// The buffer ends before the structure it announces is complete.
    Truncated,
    /// Bytes follow the encoded network.
    TrailingBytes,
    /// The encoded structure is no well-formed network.
    BadShape,
}

/// The encoding of one edge: source position, then weight bits.
pub open spec fn spec_encode_edge(e: Edge) -> Seq<u8> {
    spec_u64_to_le_bytes(e.src as u64) + spec_u64_to_le_bytes(e.weight)
}

/// The encoding of the first `upto` edges of a node, in order.
pub open spec fn spec_encode_edges(es: Seq<Edge>, upto: int) -> Seq<u8>
    decreases upto,
{
    if upto <= 0 {
        Seq::empty()
    } else {
        spec_encode_edges(es, upto - 1) + spec_encode_edge(es[upto - 1])
    }
}

/// The encoding of one node: its edge count, then its edges.
pub open spec fn spec_encode_node(es: Seq<Edge>) -> Seq<u8> {
    spec_u64_to_le_bytes(es.len() as u64) + spec_encode_edges(es, es.len() as int)
}

/// The encoding of the first `upto` nodes, in order.
pub open spec fn spec_encode_nodes(ns: Seq<Seq<Edge>>, upto: int) -> Seq<u8>
    decreases upto,
{
    if upto <= 0 {
        Seq::empty()
    } else {
        spec_encode_nodes(ns, upto - 1) + spec_encode_node(ns[upto - 1])
    }
}

/// The serialised form of a network: input count, output count and node
/// count, then every node in evaluation order, each value one little-endian
/// 64-bit word — a lossless image of the whole structure.
pub open spec fn spec_encode(net: Network) -> Seq<u8> {
    spec_u64_to_le_bytes(net.inputs as u64) + spec_u64_to_le_bytes(net.outputs as u64)
        + spec_u64_to_le_bytes(net.nodes@.len() as u64) + spec_encode_nodes(
        net.nodes_view(),
        net.nodes@.len() as int,
    )
}

/// The encoding of the edges from position `from` on: the same bytes as
/// [`spec_encode_edges`], laid out suffix first for peeling proofs.
pub open spec fn spec_encode_edges_from(es: Seq<Edge>, from: int) -> Seq<u8>
    decreases es.len() - from,
{
    if from < 0 || from >= es.len() {
        Seq::empty()
    } else {
        spec_encode_edge(es[from]) + spec_encode_edges_from(es, from + 1)
    }
}

/// The encoding of the nodes from position `from` on.
pub open spec fn spec_encode_nodes_from(ns: Seq<Seq<Edge>>, from: int) -> Seq<u8>
    decreases ns.len() - from,
{
    if from < 0 || from >= ns.len() {
        Seq::empty()
    } else {
        spec_encode_node(ns[from]) + spec_encode_nodes_from(ns, from + 1)
    }
}

/// A prefix of the edge encoding followed by the matching suffix is the
/// whole edge encoding.
proof fn lemma_edges_split(es: Seq<Edge>, upto: int)
    requires
        0 <= upto <= es.len(),
    ensures
        spec_encode_edges(es, es.len() as int) == spec_encode_edges(es, upto)
            + spec_encode_edges_from(es, upto),
    decreases es.len() - upto,
{
    if upto == es.len() {
        assert(spec_encode_edges(es, upto) + spec_encode_edges_from(es, upto) =~= spec_encode_edges(
            es,
            upto,
        ));
    } else {
        lemma_edges_split(es, upto + 1);
        assert(spec_encode_edges(es, upto + 1) == spec_encode_edges(es, upto) + spec_encode_edge(
            es[upto],
        ));
        assert(spec_encode_edges(es, upto) + (spec_encode_edge(es[upto]) + spec_encode_edges_from(
            es,
            upto + 1,
        )) =~= (spec_encode_edges(es, upto) + spec_encode_edge(es[upto])) + spec_encode_edges_from(
            es,
            upto + 1,
        ));
    }
}

/// A prefix of the node encoding followed by the matching suffix is the
/// whole node encoding.
proof fn lemma_nodes_split(ns: Seq<Seq<Edge>>, upto: int)
    requires
        0 <= upto <= ns.len(),
    ensures
        spec_encode_nodes(ns, ns.len() as int) == spec_encode_nodes(ns, upto)
            + spec_encode_nodes_from(ns, upto),
    decreases ns.len() - upto,
{
    if upto == ns.len() {
        assert(spec_encode_nodes(ns, upto) + spec_encode_nodes_from(ns, upto) =~= spec_encode_nodes(
            ns,
            upto,
        ));
    } else {
        lemma_nodes_split(ns, upto + 1);
        assert(spec_encode_nodes(ns, upto) + (spec_encode_node(ns[upto]) + spec_encode_nodes_from(
            ns,
            upto + 1,
        )) =~= (spec_encode_nodes(ns, upto) + spec_encode_node(ns[upto])) + spec_encode_nodes_from(
            ns,
            upto + 1,
        ));
    }
}

/// Two concatenations are equal and their first parts have equal length:
/// then both parts agree.
proof fn lemma_concat_split(x: Seq<u8>, r1: Seq<u8>, y: Seq<u8>, r2: Seq<u8>)
    requires
        x + r1 == y + r2,
        x.len() == y.len(),
    ensures
        x == y,
        r1 == r2,
{
    assert((x + r1).len() == x.len() + r1.len());
    assert((y + r2).len() == y.len() + r2.len());
    assert(r1.len() == r2.len());
    assert(x =~= y) by {
        assert forall|i: int| 0 <= i < x.len() implies x[i] == y[i] by {
            assert((x + r1)[i] == x[i]);
            assert((y + r2)[i] == y[i]);
        }
    }
    assert(r1 =~= r2) by {
        assert forall|i: int| 0 <= i < r1.len() implies r1[i] == r2[i] by {
            assert((x + r1)[x.len() + i] == r1[i]);
            assert((y + r2)[y.len() + i] == r2[i]);
        }
    }
}

/// The edge suffix encoding takes sixteen bytes per edge.
proof fn lemma_edges_from_len(es: Seq<Edge>, from: int)
    requires
        0 <= from <= es.len(),
    ensures
        spec_encode_edges_from(es, from).len() == 16 * (es.len() - from),
    decreases es.len() - from,
{
    vstd::bytes::lemma_auto_spec_u64_to_from_le_bytes();
    if from < es.len() {
        lemma_edges_from_len(es, from + 1);
    }
}

/// Equal suffix encodings of equally many edges mean equal edges.
proof fn lemma_edges_from_injective(ea: Seq<Edge>, eb: Seq<Edge>, t: int)
    requires
        ea.len() == eb.len(),
        0 <= t <= ea.len(),
        spec_encode_edges_from(ea, t) == spec_encode_edges_from(eb, t),
    ensures
        forall|i: int| t <= i < ea.len() ==> ea[i] == eb[i],
    decreases ea.len() - t,
{
    vstd::bytes::lemma_auto_spec_u64_to_from_le_bytes();
    if t < ea.len() {
        let sa = spec_u64_to_le_bytes(ea[t].src as u64);
        let sb = spec_u64_to_le_bytes(eb[t].src as u64);
        let wa = spec_u64_to_le_bytes(ea[t].weight);
        let wb = spec_u64_to_le_bytes(eb[t].weight);
        assert((sa + wa) + spec_encode_edges_from(ea, t + 1) =~= sa + (wa + spec_encode_edges_from(
            ea,
            t + 1,
        )));
        assert((sb + wb) + spec_encode_edges_from(eb, t + 1) =~= sb + (wb + spec_encode_edges_from(
            eb,
            t + 1,
        )));
        lemma_concat_split(
            sa,
            wa + spec_encode_edges_from(ea, t + 1),
            sb,
            wb + spec_encode_edges_from(eb, t + 1),
        );
        lemma_concat_split(
            wa,
            spec_encode_edges_from(ea, t + 1),
            wb,
            spec_encode_edges_from(eb, t + 1),
        );
        assert(ea[t].src as u64 == spec_u64_from_le_bytes(sa));
        assert(eb[t].src as u64 == spec_u64_from_le_bytes(sb));
        assert(ea[t] == eb[t]);
        lemma_edges_from_injective(ea, eb, t + 1);
    }
}

/// Equal suffix encodings of equally many nodes mean equal edge lists.
proof fn lemma_nodes_from_injective(va: Seq<Seq<Edge>>, vb: Seq<Seq<Edge>>, t: int)
    requires
        va.len() == vb.len(),
        0 <= t <= va.len(),
        forall|i: int| 0 <= i < va.len() ==> (#[trigger] va[i]).len() <= u64::MAX,
        forall|i: int| 0 <= i < vb.len() ==> (#[trigger] vb[i]).len() <= u64::MAX,
        spec_encode_nodes_from(va, t) == spec_encode_nodes_from(vb, t),
    ensures
        forall|i: int| t <= i < va.len() ==> va[i] == vb[i],
    decreases va.len() - t,
{
    vstd::bytes::lemma_auto_spec_u64_to_from_le_bytes();
    if t < va.len() {
        let ca = spec_u64_to_le_bytes(va[t].len() as u64);
        let cb = spec_u64_to_le_bytes(vb[t].len() as u64);
        let ba = spec_encode_edges(va[t], va[t].len() as int);
        let bb = spec_encode_edges(vb[t], vb[t].len() as int);
        assert((ca + ba) + spec_encode_nodes_from(va, t + 1) =~= ca + (ba + spec_encode_nodes_from(
            va,
            t + 1,
        )));
        assert((cb + bb) + spec_encode_nodes_from(vb, t + 1) =~= cb + (bb + spec_encode_nodes_from(
            vb,
            t + 1,
        )));
        lemma_concat_split(
            ca,
            ba + spec_encode_nodes_from(va, t + 1),
            cb,
            bb + spec_encode_nodes_from(vb, t + 1),
        );
        assert(va[t].len() as u64 == spec_u64_from_le_bytes(ca));
        assert(vb[t].len() as u64 == spec_u64_from_le_bytes(cb));
        assert(va[t].len() <= u64::MAX && vb[t].len() <= u64::MAX);
        assert(va[t].len() == vb[t].len());
        lemma_edges_split(va[t], 0);
        lemma_edges_split(vb[t], 0);
        assert(ba =~= spec_encode_edges_from(va[t], 0));
        assert(bb =~= spec_encode_edges_from(vb[t], 0));
        lemma_edges_from_len(va[t], 0);
        lemma_edges_from_len(vb[t], 0);
        lemma_concat_split(
            ba,
            spec_encode_nodes_from(va, t + 1),
            bb,
            spec_encode_nodes_from(vb, t + 1),
        );
        lemma_edges_from_injective(va[t], vb[t], 0);
        assert(va[t] =~= vb[t]);
        lemma_nodes_from_injective(va, vb, t + 1);
    }
}

/// Serialisation loses nothing: two networks with the same serialised bytes
/// have the same input and output counts and the same structure, so a
/// decoded network determines every prediction of the network it was
/// serialised from — the round trip through bytes is exact.
pub proof fn lemma_encoding_lossless(a: Network, b: Network)
    requires
        spec_encode(a) == spec_encode(b),
    ensures
        a.inputs == b.inputs,
        a.outputs == b.outputs,
        a.nodes_view() == b.nodes_view(),
{
    vstd::bytes::lemma_auto_spec_u64_to_from_le_bytes();
    assert(a.nodes@.len() <= u64::MAX && b.nodes@.len() <= u64::MAX) by {
        vstd::std_specs::vec::axiom_spec_len(&a.nodes);
        vstd::std_specs::vec::axiom_spec_len(&b.nodes);
    }
    assert forall|i: int| 0 <= i < a.nodes_view().len() implies (#[trigger] a.nodes_view()[i]).len()
        <= u64::MAX by {
        assert(a.nodes_view()[i] == a.nodes@[i].incoming@);
        vstd::std_specs::vec::axiom_spec_len(&a.nodes@[i].incoming);
    }
    assert forall|i: int| 0 <= i < b.nodes_view().len() implies (#[trigger] b.nodes_view()[i]).len()
        <= u64::MAX by {
        assert(b.nodes_view()[i] == b.nodes@[i].incoming@);
        vstd::std_specs::vec::axiom_spec_len(&b.nodes@[i].incoming);
    }
    let ia = spec_u64_to_le_bytes(a.inputs as u64);
    let ib = spec_u64_to_le_bytes(b.inputs as u64);
    let oa = spec_u64_to_le_bytes(a.outputs as u64);
    let ob = spec_u64_to_le_bytes(b.outputs as u64);
    let na = spec_u64_to_le_bytes(a.nodes@.len() as u64);
    let nb = spec_u64_to_le_bytes(b.nodes@.len() as u64);
    let ba = spec_encode_nodes(a.nodes_view(), a.nodes@.len() as int);
    let bb = spec_encode_nodes(b.nodes_view(), b.nodes@.len() as int);
    assert(((ia + oa) + na) + ba =~= ia + (oa + (na + ba)));
    assert(((ib + ob) + nb) + bb =~= ib + (ob + (nb + bb)));
    lemma_concat_split(ia, oa + (na + ba), ib, ob + (nb + bb));
    lemma_concat_split(oa, na + ba, ob, nb + bb);
    lemma_concat_split(na, ba, nb, bb);
    assert(a.inputs as u64 == spec_u64_from_le_bytes(ia));
    assert(b.inputs as u64 == spec_u64_from_le_bytes(ib));
    assert(a.nodes@.len() as u64 == b.nodes@.len() as u64);
    assert(a.nodes@.len() == b.nodes@.len());
    lemma_nodes_split(a.nodes_view(), 0);
    lemma_nodes_split(b.nodes_view(), 0);
    assert(ba =~= spec_encode_nodes_from(a.nodes_view(), 0));
    assert(bb =~= spec_encode_nodes_from(b.nodes_view(), 0));
    lemma_nodes_from_injective(a.nodes_view(), b.nodes_view(), 0);
    assert(a.nodes_view() =~= b.nodes_view());
}


/// The layout of a serialised network: a 24-byte header of input count,
/// output count and node count, then the node encodings.
proof fn lemma_encode_header(m: Network)
    ensures
        spec_encode(m).len() == 24 + spec_encode_nodes_from(m.nodes_view(), 0).len(),
        spec_encode(m).subrange(0, 8) == spec_u64_to_le_bytes(m.inputs as u64),
        spec_encode(m).subrange(8, 16) == spec_u64_to_le_bytes(m.outputs as u64),
        spec_encode(m).subrange(16, 24) == spec_u64_to_le_bytes(m.nodes@.len() as u64),
        spec_encode(m).subrange(24, spec_encode(m).len() as int) == spec_encode_nodes_from(
            m.nodes_view(),
            0,
        ),
{
    vstd::bytes::lemma_auto_spec_u64_to_from_le_bytes();
    let mv = m.nodes_view();
    lemma_nodes_split(mv, 0);
    assert(spec_encode_nodes(mv, mv.len() as int) =~= spec_encode_nodes_from(mv, 0));
    assert(spec_encode(m).subrange(0, 8) =~= spec_u64_to_le_bytes(m.inputs as u64));
    assert(spec_encode(m).subrange(8, 16) =~= spec_u64_to_le_bytes(m.outputs as u64));
    assert(spec_encode(m).subrange(16, 24) =~= spec_u64_to_le_bytes(m.nodes@.len() as u64));
    assert(spec_encode(m).subrange(24, spec_encode(m).len() as int) =~= spec_encode_nodes_from(
        mv,
        0,
    ));
}

/// Peeling one node off the suffix encoding: its edge count word, then its
/// edge bytes, then the remaining nodes.
proof fn lemma_nodes_from_peel(ns: Seq<Seq<Edge>>, i: int)
    requires
        0 <= i < ns.len(),
    ensures
        spec_encode_nodes_from(ns, i) == spec_u64_to_le_bytes(ns[i].len() as u64) + (
        spec_encode_edges_from(ns[i], 0) + spec_encode_nodes_from(ns, i + 1)),
        spec_encode_nodes_from(ns, i).len() >= 8,
{
    vstd::bytes::lemma_auto_spec_u64_to_from_le_bytes();
    lemma_edges_split(ns[i], 0);
    assert(spec_encode_edges(ns[i], ns[i].len() as int) =~= spec_encode_edges_from(ns[i], 0));
    assert(spec_encode_node(ns[i]) + spec_encode_nodes_from(ns, i + 1) =~= spec_u64_to_le_bytes(
        ns[i].len() as u64,
    ) + (spec_encode_edges_from(ns[i], 0) + spec_encode_nodes_from(ns, i + 1)));
}

/// Peeling one edge off the suffix encoding: its source word, its weight
/// word, then the remaining edges.
proof fn lemma_edges_from_peel(es: Seq<Edge>, k: int)
    requires
        0 <= k < es.len(),
    ensures
        spec_encode_edges_from(es, k) == spec_u64_to_le_bytes(es[k].src as u64) + (
        spec_u64_to_le_bytes(es[k].weight) + spec_encode_edges_from(es, k + 1)),
{
    vstd::bytes::lemma_auto_spec_u64_to_from_le_bytes();
    assert(spec_encode_edge(es[k]) + spec_encode_edges_from(es, k + 1) =~= spec_u64_to_le_bytes(
        es[k].src as u64,
    ) + (spec_u64_to_le_bytes(es[k].weight) + spec_encode_edges_from(es, k + 1)));
}

/// A byte range known to hold a concatenation splits at the first part's
/// length.
proof fn lemma_subrange_of_concat(b: Seq<u8>, p: int, x: Seq<u8>, rest: Seq<u8>)
    requires
        0 <= p <= b.len(),
        b.subrange(p, b.len() as int) == x + rest,
    ensures
        p + x.len() + rest.len() == b.len(),
        b.subrange(p, p + x.len()) == x,
        b.subrange(p + x.len(), b.len() as int) == rest,
{
    assert(b.subrange(p, b.len() as int).len() == (x + rest).len());
    assert((x + rest).len() == x.len() + rest.len());
    assert(b.subrange(p, p + x.len()) =~= x) by {
        assert forall|t: int| 0 <= t < x.len() implies b.subrange(p, p + x.len())[t] == x[t] by {
            assert(b.subrange(p, b.len() as int)[t] == (x + rest)[t]);
        }
    }
    assert(b.subrange(p + x.len(), b.len() as int) =~= rest) by {
        assert forall|t: int| 0 <= t < rest.len() implies b.subrange(
            p + x.len(),
            b.len() as int,
        )[t] == rest[t] by {
            assert(b.subrange(p, b.len() as int)[x.len() + t] == (x + rest)[x.len() + t]);
            assert((x + rest)[x.len() + t] == rest[t]);
        }
    }
}

/// Round trip: whatever the decoder accepts for the serialised bytes of a
/// well-formed network predicts bit-for-bit as that network, on every valid
/// input, under either activation, for any host arithmetic — serialisation
/// and restoration lose nothing that prediction can observe.
pub proof fn lemma_round_trip_predict<A: Arith>(
    arith: A,
    n: Network,
    m: Network,
    input: Seq<u64>,
    act: Activation,
)
    requires
        n.wf(),
        spec_encode(m) == spec_encode(n),
    ensures
        spec_predict(arith, m, input, act) == spec_predict(arith, n, input, act),
{
    lemma_encoding_lossless(n, m);
    assert(n.nodes@.len() == n.nodes_view().len());
    assert(m.nodes@.len() == m.nodes_view().len());
    lemma_predict_by_structure(arith, n, m, input, act);
}

/// Appends the little-endian bytes of one 64-bit word.
fn push_u64(out: &mut Vec<u8>, x: u64)
    ensures
        final(out)@ == old(out)@ + spec_u64_to_le_bytes(x),
{
    let mut bs = u64_to_le_bytes(x);
    out.append(&mut bs);
}

/// Reads the little-endian 64-bit word at the given position.
fn read_u64(bytes: &Vec<u8>, pos: usize) -> (r: u64)
    requires
        pos + 8 <= bytes@.len(),
    ensures
        r == spec_u64_from_le_bytes(bytes@.subrange(pos as int, pos as int + 8)),
{
    // the position stays in bounds, so the offset arithmetic cannot wrap
    let n = bytes.len();
    proof {
        assert(pos + 8 <= n);
    }
    u64_from_le_bytes(slice_subrange(bytes.as_slice(), pos, pos + 8))
}

/// Exact byte-for-byte comparison.
fn bytes_eq(a: &Vec<u8>, b: &Vec<u8>) -> (r: bool)
    ensures
        r == (a@ == b@),
{
    if a.len() != b.len() {
        return false;
    }
    let mut k: usize = 0;
    while k < a.len()
        invariant
            a@.len() == b@.len(),
            k <= a@.len(),
            forall|j: int| 0 <= j < k ==> a@[j] == b@[j],
        decreases a@.len() - k,
    {
        if a[k] != b[k] {
            return false;
        }
        k = k + 1;
    }
    proof {
        assert(a@ =~= b@);
    }
    true
}

impl Network {
    /// Whether the structure satisfies the network invariant, decided at
    /// run time: used to reject malformed persisted bytes.
    pub fn check_wf(&self) -> (r: bool)
        ensures
            r == self.wf(),
    {
        if self.inputs < 1 || self.outputs < 1 {
            return false;
        }
        if self.inputs > self.nodes.len() || self.outputs > self.nodes.len() - self.inputs {
            return false;
        }
        let mut i: usize = 0;
        while i < self.nodes.len()
            invariant
                i <= self.nodes@.len(),
                forall|t: int|
                    0 <= t < i && t < self.inputs ==> (#[trigger] self.nodes@[t]).incoming@.len()
                        == 0,
                forall|t: int, e: int|
                    0 <= t < i && 0 <= e < self.nodes@[t].incoming@.len()
                        ==> (#[trigger] self.nodes@[t].incoming@[e]).src < t,
            decreases self.nodes@.len() - i,
        {
            if i < self.inputs && self.nodes[i].incoming.len() != 0 {
                return false;
            }
            let mut k: usize = 0;
            let edges = self.nodes[i].incoming.len();
            while k < edges
                invariant
                    i < self.nodes@.len(),
                    edges == self.nodes@[i as int].incoming@.len(),
                    k <= edges,
                    forall|e: int|
                        0 <= e < k ==> (#[trigger] self.nodes@[i as int].incoming@[e]).src < i,
                decreases edges - k,
            {
                if self.nodes[i].incoming[k].src >= i {
                    return false;
                }
                k = k + 1;
            }
            i = i + 1;
        }
        true
    }

    /// Encodes the network to its serialised bytes, exactly as
    /// [`spec_encode`] lays them out.
    pub fn serialize(&self) -> (r: Vec<u8>)
        ensures
            r@ == spec_encode(*self),
    {
        let mut out: Vec<u8> = Vec::new();
        push_u64(&mut out, self.inputs as u64);
        push_u64(&mut out, self.outputs as u64);
        push_u64(&mut out, self.nodes.len() as u64);
        let ghost header = out@;
        let mut i: usize = 0;
        while i < self.nodes.len()
            invariant
                i <= self.nodes@.len(),
                out@ == header + spec_encode_nodes(self.nodes_view(), i as int),
            decreases self.nodes@.len() - i,
        {
            let ghost before = out@;
            let es = &self.nodes[i].incoming;
            push_u64(&mut out, es.len() as u64);
            let mut k: usize = 0;
            while k < es.len()
                invariant
                    i < self.nodes@.len(),
                    es@ == self.nodes@[i as int].incoming@,
                    k <= es@.len(),
                    out@ == before + spec_u64_to_le_bytes(es@.len() as u64) + spec_encode_edges(
                        es@,
                        k as int,
                    ),
                decreases es@.len() - k,
            {
                push_u64(&mut out, es[k].src as u64);
                push_u64(&mut out, es[k].weight);
                proof {
                    assert(out@ =~= before + spec_u64_to_le_bytes(es@.len() as u64)
                        + spec_encode_edges(es@, k as int + 1));
                }
                k = k + 1;
            }
            proof {
                assert(self.nodes_view()[i as int] == es@);
                assert(spec_encode_node(es@) == spec_u64_to_le_bytes(es@.len() as u64)
                    + spec_encode_edges(es@, es@.len() as int));
                assert(out@ =~= header + spec_encode_nodes(self.nodes_view(), i as int + 1));
            }
            i = i + 1;
        }
        proof {
            assert(out@ =~= spec_encode(*self));
        }
        out
    }

    /// Restores a network from serialised bytes: the decoder accepts
    /// exactly the images of [`Network::serialize`] on well-formed networks,
    /// and whatever it accepts re-serialises to the very same bytes — so a
    /// partially initialised network can never escape, and malformed bytes
    /// are always rejected as a decode error.
    pub fn deserialize(bytes: &Vec<u8>) -> (r: Result<Network, DecodeError>)
        ensures
            match r {
                Ok(net) => net.wf() && spec_encode(net) == bytes@,
                Err(_) => forall|m: Network| m.wf() ==> spec_encode(m) != bytes@,
            },
    {
        let ghost himg = exists|m: Network| m.wf() && (#[trigger] spec_encode(m)) == bytes@;
        let ghost gm = choose|m: Network| m.wf() && (#[trigger] spec_encode(m)) == bytes@;
        let ghost mv = gm.nodes_view();
        proof {
            if himg {
                lemma_encode_header(gm);
                vstd::std_specs::vec::axiom_spec_len(&gm.nodes);
            }
        }
        let n_bytes = bytes.len();
        let mut pos: usize = 0;
        if n_bytes < 24 {
            proof {
                if himg {
                    assert(false);
                }
            }
            return Err(DecodeError::Truncated);
        }
        let iv64 = read_u64(bytes, 0);
        let ov64 = read_u64(bytes, 8);
        let nc64 = read_u64(bytes, 16);
        pos = 24;
        proof {
            vstd::bytes::lemma_auto_spec_u64_to_from_le_bytes();
            if himg {
                assert(iv64 == gm.inputs as u64);
                assert(ov64 == gm.outputs as u64);
                assert(nc64 == gm.nodes@.len() as u64);
            }
        }
        if iv64 > usize::MAX as u64 || ov64 > usize::MAX as u64 || nc64 > usize::MAX as u64 {
            proof {
                if himg {
                    assert(false);
                }
            }
            return Err(DecodeError::BadShape);
        }
        let inputs = iv64 as usize;
        let outputs = ov64 as usize;
        let ncount = nc64 as usize;
        proof {
            if himg {
                assert(bytes@.subrange(pos as int, n_bytes as int) == spec_encode_nodes_from(
                    mv,
                    0,
                ));
            }
        }
        let mut nodes: Vec<NetNode> = Vec::new();
        let mut i: usize = 0;
        while i < ncount
            invariant
                n_bytes == bytes@.len(),
                pos <= n_bytes,
                nodes@.len() == i,
                i <= ncount,
                himg == exists|m: Network| m.wf() && (#[trigger] spec_encode(m)) == bytes@,
                himg ==> gm.wf() && spec_encode(gm) == bytes@ && mv == gm.nodes_view(),
                himg ==> inputs == gm.inputs && outputs == gm.outputs && ncount
                    == gm.nodes@.len(),
                himg ==> bytes@.subrange(pos as int, n_bytes as int) == spec_encode_nodes_from(
                    mv,
                    i as int,
                ),
                himg ==> forall|t: int| 0 <= t < i ==> (#[trigger] nodes@[t]).incoming@ == mv[t],
            decreases ncount - i,
        {
            proof {
                if himg {
                    assert(mv.len() == gm.nodes@.len());
                    lemma_nodes_from_peel(mv, i as int);
                    lemma_subrange_of_concat(
                        bytes@,
                        pos as int,
                        spec_u64_to_le_bytes(mv[i as int].len() as u64),
                        spec_encode_edges_from(mv[i as int], 0) + spec_encode_nodes_from(
                            mv,
                            i as int + 1,
                        ),
                    );
                }
            }
            if n_bytes - pos < 8 {
                proof {
                    if himg {
                        assert(false);
                    }
                }
                return Err(DecodeError::Truncated);
            }
            let c64 = read_u64(bytes, pos);
            pos = pos + 8;
            proof {
                vstd::bytes::lemma_auto_spec_u64_to_from_le_bytes();
                if himg {
                    assert(mv[i as int] == gm.nodes@[i as int].incoming@);
                    vstd::std_specs::vec::axiom_spec_len(&gm.nodes@[i as int].incoming);
                    assert(c64 == mv[i as int].len() as u64);
                }
            }
            if c64 > usize::MAX as u64 {
                proof {
                    if himg {
                        assert(false);
                    }
                }
                return Err(DecodeError::BadShape);
            }
            let count = c64 as usize;
            let mut edges: Vec<Edge> = Vec::new();
            let mut k: usize = 0;
            while k < count
                invariant
                    n_bytes == bytes@.len(),
                    pos <= n_bytes,
                    edges@.len() == k,
                    k <= count,
                    i < ncount,
                    himg == exists|m: Network| m.wf() && (#[trigger] spec_encode(m)) == bytes@,
                    himg ==> gm.wf() && spec_encode(gm) == bytes@ && mv == gm.nodes_view(),
                    himg ==> i < mv.len() && count == mv[i as int].len(),
                    himg ==> bytes@.subrange(pos as int, n_bytes as int) == spec_encode_edges_from(
                        mv[i as int],
                        k as int,
                    ) + spec_encode_nodes_from(mv, i as int + 1),
                    himg ==> forall|e: int|
                        0 <= e < k ==> (#[trigger] edges@[e]) == mv[i as int][e],
                decreases count - k,
            {
                proof {
                    vstd::bytes::lemma_auto_spec_u64_to_from_le_bytes();
                    if himg {
                        let es = mv[i as int];
                        lemma_edges_from_peel(es, k as int);
                        lemma_edges_from_len(es, k as int + 1);
                        assert((spec_u64_to_le_bytes(es[k as int].src as u64) + (
                        spec_u64_to_le_bytes(es[k as int].weight) + spec_encode_edges_from(
                            es,
                            k as int + 1,
                        ))) + spec_encode_nodes_from(mv, i as int + 1) =~= spec_u64_to_le_bytes(
                            es[k as int].src as u64,
                        ) + ((spec_u64_to_le_bytes(es[k as int].weight) + spec_encode_edges_from(
                            es,
                            k as int + 1,
                        )) + spec_encode_nodes_from(mv, i as int + 1)));
                        lemma_subrange_of_concat(
                            bytes@,
                            pos as int,
                            spec_u64_to_le_bytes(es[k as int].src as u64),
                            (spec_u64_to_le_bytes(es[k as int].weight) + spec_encode_edges_from(
                                es,
                                k as int + 1,
                            )) + spec_encode_nodes_from(mv, i as int + 1),
                        );
                        assert((spec_u64_to_le_bytes(es[k as int].weight) + spec_encode_edges_from(
                            es,
                            k as int + 1,
                        )) + spec_encode_nodes_from(mv, i as int + 1) =~= spec_u64_to_le_bytes(
                            es[k as int].weight,
                        ) + (spec_encode_edges_from(es, k as int + 1) + spec_encode_nodes_from(
                            mv,
                            i as int + 1,
                        )));
                        lemma_subrange_of_concat(
                            bytes@,
                            pos as int + 8,
                            spec_u64_to_le_bytes(es[k as int].weight),
                            spec_encode_edges_from(es, k as int + 1) + spec_encode_nodes_from(
                                mv,
                                i as int + 1,
                            ),
                        );
                    }
                }
                if n_bytes - pos < 16 {
                    proof {
                        if himg {
                            assert(false);
                        }
                    }
                    return Err(DecodeError::Truncated);
                }
                let src64 = read_u64(bytes, pos);
                let w = read_u64(bytes, pos + 8);
                pos = pos + 16;
                proof {
                    vstd::bytes::lemma_auto_spec_u64_to_from_le_bytes();
                    if himg {
                        assert(src64 == mv[i as int][k as int].src as u64);
                        assert(w == mv[i as int][k as int].weight);
                    }
                }
                if src64 > usize::MAX as u64 {
                    proof {
                        if himg {
                            assert(false);
                        }
                    }
                    return Err(DecodeError::BadShape);
                }
                edges.push(Edge { src: src64 as usize, weight: w });
                proof {
                    if himg {
                        assert(edges@[k as int] == mv[i as int][k as int]);
                    }
                }
                k = k + 1;
            }
            proof {
                if himg {
                    assert(spec_encode_edges_from(mv[i as int], count as int)
                        + spec_encode_nodes_from(mv, i as int + 1) =~= spec_encode_nodes_from(
                        mv,
                        i as int + 1,
                    ));
                    assert(edges@ =~= mv[i as int]);
                }
            }
            nodes.push(NetNode { incoming: edges });
            i = i + 1;
        }
        if pos != n_bytes {
            proof {
                if himg {
                    assert(spec_encode_nodes_from(mv, ncount as int) =~= Seq::<u8>::empty());
                    assert(false);
                }
            }
            return Err(DecodeError::TrailingBytes);
        }
        let net = Network { inputs, outputs, nodes };
        proof {
            if himg {
                assert forall|t: int| 0 <= t < net.nodes@.len() implies (
                #[trigger] net.nodes@[t]).incoming@ == gm.nodes@[t].incoming@ by {
                    assert(net.nodes@[t].incoming@ == mv[t]);
                    assert(mv[t] == gm.nodes@[t].incoming@);
                }
                assert(net.wf()) by {
                    assert(gm.wf());
                    assert forall|t: int, e: int|
                        0 <= t < net.nodes@.len() && 0 <= e
                            < net.nodes@[t].incoming@.len() implies (
                    #[trigger] net.nodes@[t].incoming@[e]).src < t by {
                        assert(net.nodes@[t].incoming@[e] == gm.nodes@[t].incoming@[e]);
                        assert(gm.nodes@[t].incoming@[e].src < t);
                    }
                }
                assert(net.nodes_view() =~= gm.nodes_view());
                assert(spec_encode(net) == spec_encode(gm));
            }
        }
        if !net.check_wf() {
            proof {
                if himg {
                    assert(false);
                }
            }
            return Err(DecodeError::BadShape);
        }
        let reenc = net.serialize();
        if !bytes_eq(&reenc, bytes) {
            proof {
                if himg {
                    assert(false);
                }
            }
            return Err(DecodeError::BadShape);
        }
        Ok(net)
    }
}

} // verus!
