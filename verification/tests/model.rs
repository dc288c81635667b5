use neat_py::activation::{activation_from_name, Activation};
use neat_py::codec::DecodeError;
use neat_py::genome::{Genome, InnovationTable, Role, ONE_BITS};
use neat_py::network::{Arith, Network, PredictError};

/// Host arithmetic over IEEE-754 bit patterns: plain double precision with
/// the two activation functions of the system.
struct F64Arith;

fn sigmoid(x: f64) -> f64 {
    1.0 / (1.0 + (-x).exp())
}

impl Arith for F64Arith {
    fn spec_mul_add(&self, acc: u64, w: u64, v: u64) -> u64 {
        (f64::from_bits(acc) + f64::from_bits(w) * f64::from_bits(v)).to_bits()
    }

    fn spec_activate(&self, act: Activation, x: u64) -> u64 {
        let xv = f64::from_bits(x);
        match act {
            Activation::Sigmoid => sigmoid(xv).to_bits(),
            Activation::Tanh => xv.tanh().to_bits(),
        }
    }

    // each operation returns exactly the value its spec function names
    fn mul_add(&self, acc: u64, w: u64, v: u64) -> u64 {
        self.spec_mul_add(acc, w, v)
    }

    fn activate(&self, act: Activation, x: u64) -> u64 {
        self.spec_activate(act, x)
    }
}

fn table_for(g: &Genome) -> InnovationTable {
    InnovationTable { pairs: Vec::new(), next_node: g.nodes.len() }
}

#[test]
fn activation_names() {
    assert_eq!(activation_from_name("tanh"), Activation::Tanh);
    assert_eq!(activation_from_name("sigmoid"), Activation::Sigmoid);
    // every unrecognised name falls back to the sigmoid
    assert_eq!(activation_from_name(""), Activation::Sigmoid);
    assert_eq!(activation_from_name("relu"), Activation::Sigmoid);
}

#[test]
fn minimal_genome_shape() {
    let g = Genome::new(2, 1);
    assert_eq!(g.inputs, 2);
    assert_eq!(g.outputs, 1);
    assert_eq!(g.nodes.len(), 3);
    assert_eq!(g.conns.len(), 0);
    assert_eq!(g.nodes[0].id, 0);
    assert_eq!(g.nodes[0].role, Role::Input);
    assert_eq!(g.nodes[1].id, 1);
    assert_eq!(g.nodes[1].role, Role::Input);
    assert_eq!(g.nodes[2].id, 2);
    assert_eq!(g.nodes[2].role, Role::Output);
}

#[test]
fn fresh_genome_predict_shape() {
    // a fresh genome decodes to a network taking `inputs` values and
    // returning `outputs` values
    for (inputs, outputs) in [(1usize, 1usize), (2, 1), (3, 4)] {
        let g = Genome::new(inputs, outputs);
        let net = g.get_network();
        let input: Vec<u64> = vec![0u64; inputs];
        let out = net.predict(&input, Activation::Sigmoid, &F64Arith);
        assert_eq!(out.len(), outputs);
    }
}

#[test]
fn predict_rejects_wrong_length() {
    let g = Genome::new(2, 1);
    let net = g.get_network();
    let too_short: Vec<u64> = vec![0u64];
    let r = net.try_predict(&too_short, Activation::Sigmoid, &F64Arith);
    assert_eq!(r, Err(PredictError::WrongInputLength));
    let exact: Vec<u64> = vec![0u64, 0u64];
    assert!(net.try_predict(&exact, Activation::Sigmoid, &F64Arith).is_ok());
}

#[test]
fn activation_values_through_predict() {
    // one input wired straight to the output with weight 1.0: the network
    // computes exactly the activation of its input
    let mut g = Genome::new(1, 1);
    let mut table = table_for(&g);
    g.add_connection(0, 1, 1.0f64.to_bits(), &mut table);
    assert_eq!(g.conns.len(), 1);
    let net = g.get_network();
    let at = |x: f64, act: Activation| -> f64 {
        let out = net.predict(&vec![x.to_bits()], act, &F64Arith);
        f64::from_bits(out[0])
    };
    assert_eq!(at(0.0, Activation::Sigmoid), 0.5);
    assert_eq!(at(0.0, Activation::Tanh), 0.0);
    // monotone increasing, and bounded in (0,1) and (-1,1)
    let samples = [-6.0, -2.5, -0.5, 0.0, 0.25, 1.0, 4.0, 8.0];
    for w in samples.windows(2) {
        assert!(at(w[0], Activation::Sigmoid) < at(w[1], Activation::Sigmoid));
        assert!(at(w[0], Activation::Tanh) < at(w[1], Activation::Tanh));
    }
    for &x in &samples {
        let s = at(x, Activation::Sigmoid);
        assert!(0.0 < s && s < 1.0);
        let t = at(x, Activation::Tanh);
        assert!(-1.0 < t && t < 1.0);
    }
}

#[test]
fn split_rewires_through_hidden_node() {
    let mut g = Genome::new(2, 1);
    let mut table = table_for(&g);
    let w0 = 0.75f64;
    g.add_connection(0, 2, w0.to_bits(), &mut table);
    g.split_connection(0, &mut table);
    assert_eq!(g.nodes.len(), 4);
    assert_eq!(g.conns.len(), 3);
    assert!(!g.conns[0].enabled);
    // the hidden node sits between the inputs and the output in order
    assert_eq!(g.nodes[2].role, Role::Hidden);
    assert_eq!(g.nodes[2].id, 3);
    assert_eq!(g.conns[1].weight, ONE_BITS);
    assert_eq!(g.conns[2].weight, w0.to_bits());
    // the network now computes act(w0 * act(a)) on input [a, b]
    let net = g.get_network();
    let a = 0.3f64;
    let out = net.predict(
        &vec![a.to_bits(), 0.9f64.to_bits()],
        Activation::Sigmoid,
        &F64Arith,
    );
    assert_eq!(out.len(), 1);
    let expected = sigmoid(w0 * sigmoid(1.0 * a));
    assert_eq!(f64::from_bits(out[0]), expected);
}

#[test]
fn predict_is_deterministic() {
    let mut g = Genome::new(2, 2);
    let mut table = table_for(&g);
    g.add_connection(0, 2, 0.5f64.to_bits(), &mut table);
    g.add_connection(1, 3, (-1.25f64).to_bits(), &mut table);
    let net = g.get_network();
    let input = vec![1.5f64.to_bits(), (-0.25f64).to_bits()];
    let first = net.predict(&input, Activation::Tanh, &F64Arith);
    let second = net.predict(&input, Activation::Tanh, &F64Arith);
    assert_eq!(first, second);
}

#[test]
fn innovation_identities_are_stable() {
    let mut table = InnovationTable { pairs: Vec::new(), next_node: 3 };
    let first = table.innovation_for(0, 2);
    let other = table.innovation_for(1, 2);
    let again = table.innovation_for(0, 2);
    assert_eq!(first, 0);
    assert_eq!(other, 1);
    assert_eq!(again, first);
    assert_eq!(table.pairs.len(), 2);
}

#[test]
fn round_trip_preserves_structure_and_prediction() {
    let mut g = Genome::new(2, 1);
    let mut table = table_for(&g);
    g.add_connection(0, 2, 0.25f64.to_bits(), &mut table);
    g.add_connection(1, 2, (-0.75f64).to_bits(), &mut table);
    g.split_connection(0, &mut table);
    let net = g.get_network();
    let bytes = net.serialize();
    let back = Network::deserialize(&bytes).expect("round trip must decode");
    assert_eq!(back.inputs, net.inputs);
    assert_eq!(back.outputs, net.outputs);
    assert_eq!(back.nodes.len(), net.nodes.len());
    assert_eq!(back.serialize(), bytes);
    let input = vec![0.5f64.to_bits(), 2.0f64.to_bits()];
    for act in [Activation::Sigmoid, Activation::Tanh] {
        let a = net.predict(&input, act, &F64Arith);
        let b = back.predict(&input, act, &F64Arith);
        assert_eq!(a, b);
    }
}

#[test]
fn serialized_bytes_are_exact() {
    let g = Genome::new(1, 1);
    let net = g.get_network();
    let bytes = net.serialize();
    let mut expected: Vec<u8> = Vec::new();
    expected.extend_from_slice(&1u64.to_le_bytes()); // inputs
    expected.extend_from_slice(&1u64.to_le_bytes()); // outputs
    expected.extend_from_slice(&2u64.to_le_bytes()); // node count
    expected.extend_from_slice(&0u64.to_le_bytes()); // no edges into the input
    expected.extend_from_slice(&0u64.to_le_bytes()); // no edges into the output
    assert_eq!(bytes, expected);
}

#[test]
fn deserialize_rejects_malformed_bytes() {
    let g = Genome::new(1, 1);
    let bytes = g.get_network().serialize();
    // truncation
    let mut cut = bytes.clone();
    cut.pop();
    assert!(matches!(Network::deserialize(&cut), Err(DecodeError::Truncated)));
    assert!(matches!(Network::deserialize(&bytes[..10].to_vec()), Err(DecodeError::Truncated)));
    // trailing garbage
    let mut long = bytes.clone();
    long.push(0);
    assert!(matches!(Network::deserialize(&long), Err(DecodeError::TrailingBytes)));
    // a zero input count is no well-formed network
    let mut bad: Vec<u8> = Vec::new();
    bad.extend_from_slice(&0u64.to_le_bytes());
    bad.extend_from_slice(&1u64.to_le_bytes());
    bad.extend_from_slice(&1u64.to_le_bytes());
    bad.extend_from_slice(&0u64.to_le_bytes());
    assert!(matches!(Network::deserialize(&bad), Err(DecodeError::BadShape)));
    // an edge from a later node is no feed-forward network
    let mut cyc: Vec<u8> = Vec::new();
    cyc.extend_from_slice(&1u64.to_le_bytes()); // inputs
    cyc.extend_from_slice(&1u64.to_le_bytes()); // outputs
    cyc.extend_from_slice(&2u64.to_le_bytes()); // node count
    cyc.extend_from_slice(&0u64.to_le_bytes()); // input: no edges
    cyc.extend_from_slice(&1u64.to_le_bytes()); // output: one edge
    cyc.extend_from_slice(&1u64.to_le_bytes()); // ... fed from itself
    cyc.extend_from_slice(&1.0f64.to_bits().to_le_bytes());
    assert!(matches!(Network::deserialize(&cyc), Err(DecodeError::BadShape)));
    // the unharmed bytes still decode
    assert!(Network::deserialize(&bytes).is_ok());
}
