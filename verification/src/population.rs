use vstd::prelude::*;

use crate::genome::{mutation_step, Genome, InnovationTable};

verus! {

/// The fixed-point representation of probability one: a mutation rate is
/// given as a fraction `rate / RATE_ONE` with `0 <= rate <= RATE_ONE`.
pub const RATE_ONE: u64 = 0x1_0000_0000;

/// The sum of a sequence of selection weights.
pub open spec fn sum_of(s: Seq<u64>) -> int
    decreases s.len(),
{
    if s.len() == 0 {
        0
    } else {
        sum_of(s.drop_last()) + s.last()
    }
}

/// Extending a prefix by one element adds that element to its sum.
pub proof fn lemma_sum_take_step(s: Seq<u64>, k: int)
    requires
        0 <= k < s.len(),
    ensures
        sum_of(s.take(k + 1)) == sum_of(s.take(k)) + s[k],
{
    assert(s.take(k + 1).drop_last() =~= s.take(k));
    assert(s.take(k + 1).last() == s[k]);
}

/// A prefix sum never exceeds the full sum: the remaining weights are
/// non-negative.
pub proof fn lemma_sum_take_le(s: Seq<u64>, k: int)
    requires
        0 <= k <= s.len(),
    ensures
        sum_of(s.take(k)) <= sum_of(s),
    decreases s.len() - k,
{
    if k == s.len() {
        assert(s.take(k) =~= s);
    } else {
        lemma_sum_take_step(s, k);
        lemma_sum_take_le(s, k + 1);
    }
}

/// Prefix sums of non-negative weights grow monotonically.
pub proof fn lemma_sum_take_monotone(s: Seq<u64>, a: int, b: int)
    requires
        0 <= a <= b <= s.len(),
    ensures
        sum_of(s.take(a)) <= sum_of(s.take(b)),
    decreases b - a,
{
    if a < b {
        lemma_sum_take_step(s, a);
        lemma_sum_take_monotone(s, a + 1, b);
    }
}

/// Two selection windows never overlap: the window of an earlier index ends
/// before the window of a later index begins. Together with the window
/// containment that `select_index` ensures, exactly `weights[i]` of the
/// `sum_of(weights)` possible draws select index `i`, so under a uniform
/// draw the expected selection frequency of genome `i` is its share
/// `weights[i] / sum_of(weights)` of the total.
pub proof fn lemma_selection_windows_disjoint(s: Seq<u64>, i: int, j: int)
    requires
        0 <= i < j < s.len(),
    ensures
        sum_of(s.take(i)) + s[i] <= sum_of(s.take(j)),
{
    lemma_sum_take_step(s, i);
    lemma_sum_take_monotone(s, i + 1, j);
}

/// Fitness-proportionate ("roulette wheel") selection: returns the index
/// whose cumulative-weight window contains the draw. Exactly `weights[i]`
/// of the `sum_of(weights)` possible draws select index `i`, so a uniform
/// draw selects each genome with probability proportional to its weight.
pub fn select_index(weights: &Vec<u64>, draw: u64) -> (r: usize)
    requires
        1 <= weights@.len(),
        draw < sum_of(weights@),
        sum_of(weights@) <= u64::MAX,
    ensures
        r < weights@.len(),
        sum_of(weights@.take(r as int)) <= draw,
        draw < sum_of(weights@.take(r as int)) + weights@[r as int],
{
    let mut acc: u64 = 0;
    let mut k: usize = 0;
    let n = weights.len();
    while k < n
        invariant
            n == weights@.len(),
            k <= n,
            acc == sum_of(weights@.take(k as int)),
            acc <= draw,
            draw < sum_of(weights@),
            sum_of(weights@) <= u64::MAX,
        decreases n - k,
    {
        let w = weights[k];
        proof {
            lemma_sum_take_step(weights@, k as int);
            lemma_sum_take_le(weights@, k as int + 1);
        }
        if draw < acc + w {
            return k;
        }
        acc = acc + w;
        k = k + 1;
    }
    proof {
        assert(weights@.take(n as int) =~= weights@);
        assert(false);
    }
    0
}

/// Whether the genome is bred from the given parent pool: a clone of some
/// pool member taken one mutation pass further.
pub open spec fn bred_from(parents: Seq<Genome>, child: Genome) -> bool {
    exists|pi: int| 0 <= pi < parents.len() && mutation_step(#[trigger] parents[pi], child)
}

/// A fixed-size collection of genomes evolved generation by generation,
/// with the shared input and output counts, the mutation rate, and the
/// population-wide structural bookkeeping.
pub struct Population {
    pub genomes: Vec<Genome>,
    pub inputs: usize,
    pub outputs: usize,
    pub mutation_rate: u64,
    pub table: InnovationTable,
}

impl Population {
    /// The population invariant: at least one genome, every genome
    /// well-formed with the shared shape, and every node id ever handed out
    /// lying below the fresh-node counter.
    pub open spec fn wf(self) -> bool {
        &&& 1 <= self.genomes@.len()
        &&& 1 <= self.inputs
        &&& 1 <= self.outputs
        &&& self.inputs + self.outputs <= usize::MAX
        &&& self.mutation_rate <= RATE_ONE
        &&& self.inputs + self.outputs <= self.table.next_node
        &&& forall|g: int|
            0 <= g < self.genomes@.len() ==> {
                &&& (#[trigger] self.genomes@[g]).wf()
                &&& self.genomes@[g].inputs == self.inputs
                &&& self.genomes@[g].outputs == self.outputs
                &&& self.genomes@[g].ids_below(self.table.next_node)
            }
    }

    /// Creates a population of `size` fresh minimal genomes sharing the
    /// fixed input and output counts and the mutation rate.
    pub fn new(inputs: usize, outputs: usize, size: usize, mutation_rate: u64) -> (r: Population)
        requires
            1 <= inputs,
            1 <= outputs,
            1 <= size,
            inputs + outputs <= usize::MAX,
            mutation_rate <= RATE_ONE,
        ensures
            r.wf(),
            r.genomes@.len() == size,
            r.inputs == inputs,
            r.outputs == outputs,
            r.mutation_rate == mutation_rate,
            forall|g: int|
                0 <= g < size ==> (#[trigger] r.genomes@[g]).conns@.len() == 0
                    && r.genomes@[g].nodes@.len() == inputs + outputs,
    {
        let mut genomes: Vec<Genome> = Vec::new();
        let mut i: usize = 0;
        while i < size
            invariant
                i <= size,
                genomes@.len() == i,
                1 <= inputs,
                1 <= outputs,
                inputs + outputs <= usize::MAX,
                forall|g: int|
                    0 <= g < i ==> {
                        &&& (#[trigger] genomes@[g]).wf()
                        &&& genomes@[g].inputs == inputs
                        &&& genomes@[g].outputs == outputs
                        &&& genomes@[g].ids_below((inputs + outputs) as usize)
                        &&& genomes@[g].conns@.len() == 0
                        &&& genomes@[g].nodes@.len() == inputs + outputs
                    },
            decreases size - i,
        {
            genomes.push(Genome::new(inputs, outputs));
            i = i + 1;
        }
        Population {
            genomes,
            inputs,
            outputs,
            mutation_rate,
            table: InnovationTable { pairs: Vec::new(), next_node: inputs + outputs },
        }
    }

    /// One generation step from the given per-genome selection weights:
    /// `size` parents are selected independently — fitness-proportionately
    /// when the weights have a positive sum, uniformly when they are all
    /// zero, so a scoreless generation still reproduces — and each child of
    /// the next generation is a clone of its selected parent taken one
    /// mutation pass further. The genome sequence is replaced wholesale,
    /// and only after every child is complete.
    pub fn advance_generation(&mut self, weights: &Vec<u64>)
        requires
            old(self).wf(),
            weights@.len() == old(self).genomes@.len(),
            sum_of(weights@) <= u64::MAX,
        ensures
            final(self).wf(),
            final(self).genomes@.len() == old(self).genomes@.len(),
            final(self).inputs == old(self).inputs,
            final(self).outputs == old(self).outputs,
            final(self).mutation_rate == old(self).mutation_rate,
            forall|g: int|
                0 <= g < final(self).genomes@.len() ==> {
                    &&& (#[trigger] final(self).genomes@[g]).wf()
                    &&& final(self).genomes@[g].inputs == old(self).inputs
                    &&& final(self).genomes@[g].outputs == old(self).outputs
                },
            forall|g: int|
                0 <= g < final(self).genomes@.len() ==> bred_from(
                    old(self).genomes@,
                    #[trigger] final(self).genomes@[g],
                ),
    {
        let size = self.genomes.len();
        let mut total: u64 = 0;
        let mut k: usize = 0;
        while k < size
            invariant
                k <= size,
                size == weights@.len(),
                total == sum_of(weights@.take(k as int)),
                sum_of(weights@) <= u64::MAX,
            decreases size - k,
        {
            proof {
                lemma_sum_take_step(weights@, k as int);
                lemma_sum_take_le(weights@, k as int + 1);
            }
            total = total + weights[k];
            k = k + 1;
        }
        proof {
            assert(weights@.take(size as int) =~= weights@);
        }
        let mut children: Vec<Genome> = Vec::new();
        let mut i: usize = 0;
        while i < size
            invariant
                i <= size,
                children@.len() == i,
                size == self.genomes@.len(),
                self.genomes@ == old(self).genomes@,
                self.inputs == old(self).inputs,
                self.outputs == old(self).outputs,
                self.mutation_rate == old(self).mutation_rate,
                self.wf(),
                old(self).table.next_node <= self.table.next_node,
                weights@.len() == size,
                sum_of(weights@) <= u64::MAX,
                total == sum_of(weights@),
                forall|g: int|
                    0 <= g < i ==> {
                        &&& (#[trigger] children@[g]).wf()
                        &&& children@[g].inputs == self.inputs
                        &&& children@[g].outputs == self.outputs
                        &&& children@[g].ids_below(self.table.next_node)
                    },
                forall|g: int|
                    0 <= g < i ==> bred_from(old(self).genomes@, #[trigger] children@[g]),
            decreases size - i,
        {
            let parent_idx = if total > 0 {
                select_index(weights, crate::rng::rand_below(total))
            } else {
                crate::rng::rand_index(size)
            };
            let mut child = self.genomes[parent_idx].duplicate();
            let ghost child0 = child;
            child.mutate(self.mutation_rate, &mut self.table);
            proof {
                let parent = old(self).genomes@[parent_idx as int];
                assert(child0.conns@ == parent.conns@ && child0.nodes@ == parent.nodes@);
                assert(mutation_step(parent, child)) by {
                    assert forall|j: int| 0 <= j < parent.conns@.len() implies
                        crate::genome::gene_preserved(
                        parent.conns@[j],
                        #[trigger] child.conns@[j],
                    ) by {
                        assert(crate::genome::gene_preserved(child0.conns@[j], child.conns@[j]));
                    }
                }
                assert(bred_from(old(self).genomes@, child));
            }
            children.push(child);
            i = i + 1;
        }
        let ghost kids = children@;
        self.genomes = children;
        proof {
            assert forall|g: int| 0 <= g < self.genomes@.len() implies bred_from(
                old(self).genomes@,
                #[trigger] self.genomes@[g],
            ) by {
                assert(self.genomes@[g] == kids[g]);
                assert(bred_from(old(self).genomes@, kids[g]));
            }
        }
    }
}

} // verus!
