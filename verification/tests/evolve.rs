use neat_py::activation::Activation;
use neat_py::network::Arith;
use neat_py::population::{select_index, Population, RATE_ONE};

struct F64Arith;

impl Arith for F64Arith {
    fn spec_mul_add(&self, acc: u64, w: u64, v: u64) -> u64 {
        (f64::from_bits(acc) + f64::from_bits(w) * f64::from_bits(v)).to_bits()
    }

    fn spec_activate(&self, act: Activation, x: u64) -> u64 {
        let xv = f64::from_bits(x);
        match act {
            Activation::Sigmoid => (1.0 / (1.0 + (-xv).exp())).to_bits(),
            Activation::Tanh => xv.tanh().to_bits(),
        }
    }

    // each operation returns exactly the value its spec function names
    fn mul_add(&self, acc: u64, w: u64, v: u64) -> u64 {
        self.spec_mul_add(acc, w, v)
    }

    fn activate(&self, act: Activation, x: u64) -> u64 {
        self.spec_activate(act, x)
    }
}

/// The mutation rate as a fixed-point fraction of RATE_ONE.
fn rate_of(p: f64) -> u64 {
    (p * RATE_ONE as f64) as u64
}

/// Selection weights proportional to the given non-negative scores, scaled
/// into a fixed integer budget, as an embedding host derives them.
fn weights_from_scores(scores: &[f64]) -> Vec<u64> {
    let total: f64 = scores.iter().sum();
    if total <= 0.0 {
        return vec![0u64; scores.len()];
    }
    scores
        .iter()
        .map(|s| ((s / total) * (1u64 << 32) as f64) as u64)
        .collect()
}

#[test]
fn roulette_windows_are_exact() {
    // weights [1, 2, 3]: draw 0 -> 0, draws 1..3 -> 1, draws 3..6 -> 2
    let weights: Vec<u64> = vec![1, 2, 3];
    let picks: Vec<usize> = (0u64..6).map(|d| select_index(&weights, d)).collect();
    assert_eq!(picks, vec![0, 1, 1, 2, 2, 2]);
}

#[test]
fn roulette_frequencies_follow_scores() {
    // a seeded linear-congruential source drives the selection directly:
    // the observed frequencies must match the weights exactly in proportion
    let weights: Vec<u64> = vec![100, 1, 2, 4, 5, 8, 92];
    let total: u64 = weights.iter().sum();
    let mut counts = vec![0u64; weights.len()];
    let mut state: u64 = 0x2545_f491_4f6c_dd1d;
    let rounds = 200_000u64;
    for _ in 0..rounds {
        state = state.wrapping_mul(6364136223846793005).wrapping_add(1442695040888963407);
        let draw = (state >> 16) % total;
        counts[select_index(&weights, draw)] += 1;
    }
    for i in 0..weights.len() {
        let observed = counts[i] as f64 / rounds as f64;
        let expected = weights[i] as f64 / total as f64;
        assert!((observed - expected).abs() < 0.01, "index {i}: {observed} vs {expected}");
    }
}

#[test]
fn population_starts_with_fresh_genomes() {
    let pop = Population::new(3, 2, 7, rate_of(0.25));
    assert_eq!(pop.genomes.len(), 7);
    assert_eq!(pop.inputs, 3);
    assert_eq!(pop.outputs, 2);
    for g in &pop.genomes {
        assert_eq!(g.inputs, 3);
        assert_eq!(g.outputs, 2);
        assert_eq!(g.conns.len(), 0);
        assert_eq!(g.nodes.len(), 5);
    }
}

#[test]
fn zero_scores_still_breed_a_full_generation() {
    // every score zero: the uniform fallback must still produce a complete
    // next generation, with no division anywhere
    let mut pop = Population::new(2, 1, 6, rate_of(0.5));
    let weights = weights_from_scores(&[0.0; 6]);
    assert_eq!(weights, vec![0u64; 6]);
    pop.advance_generation(&weights);
    assert_eq!(pop.genomes.len(), 6);
    for g in &pop.genomes {
        assert_eq!(g.inputs, 2);
        assert_eq!(g.outputs, 1);
    }
}

#[test]
fn one_generation_keeps_shape() {
    // inputs=2, outputs=1, size=10, mutation rate 0.1; a fitness of 1.0 for
    // every genome; after one generation the population still holds exactly
    // 10 genomes of the same shape
    let mut pop = Population::new(2, 1, 10, rate_of(0.1));
    let scores = vec![1.0f64; 10];
    let weights = weights_from_scores(&scores);
    pop.advance_generation(&weights);
    assert_eq!(pop.genomes.len(), 10);
    for g in &pop.genomes {
        assert_eq!(g.inputs, 2);
        assert_eq!(g.outputs, 1);
        let net = g.get_network();
        let out = net.predict(&vec![0u64, 0u64], Activation::Sigmoid, &F64Arith);
        assert_eq!(out.len(), 1);
    }
}

#[test]
fn mutated_lineages_stay_decodable() {
    // whatever sequence of mutations a lineage accumulates, every genome
    // still decodes into a feed-forward network and answers predictions
    let mut pop = Population::new(3, 2, 8, RATE_ONE);
    for round in 0..25 {
        let scores: Vec<f64> = (0..8).map(|i| ((i + round) % 5) as f64).collect();
        let weights = weights_from_scores(&scores);
        pop.advance_generation(&weights);
        assert_eq!(pop.genomes.len(), 8);
        for g in &pop.genomes {
            let net = g.get_network();
            let input: Vec<u64> = vec![0.5f64.to_bits(); 3];
            let out = net.predict(&input, Activation::Tanh, &F64Arith);
            assert_eq!(out.len(), 2);
        }
    }
}
