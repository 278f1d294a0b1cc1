//! Species: clusters of genomes within a compatibility-distance threshold
//! of a shared representative, with fitness sharing, culling, staleness
//! bookkeeping and reproduction.

use vstd::prelude::*;

verus! {

use crate::conf::Conf;
use crate::ledger::{ledger_wf, Innov};
use crate::neuralnet::{
    lemma_crossover_wf, links_sorted, net_equiv, net_wf, Link, Net,
};
use crate::rng::{coin, rand_below};
use crate::{COEF_CAP, FIT_CAP, FX_ONE, PROB_ONE, SIZE_CAP, W_MAX};

/// One species: population-relative member indices, their shared fitnesses,
/// an owned representative snapshot, and staleness bookkeeping. The
/// representative is a value copy, so structural changes to living genomes
/// never alter the compatibility baseline.
pub struct Species {
    pub members: Vec<usize>,
    pub members_shared_fitness: Vec<u64>,
    pub repr: Net,
    pub staleness: u32,
    pub best_fitness: u64,
    pub avarage_fitness: u64,
}

/// The disjoint count, matching count and summed absolute weight
/// difference of the ascending-innovation merge walk over `a[i..]` and
/// `b[j..]`. Genes beyond the walk's end (excess genes) are not counted
/// here.
pub open spec fn merge_counts(a: Seq<Link>, b: Seq<Link>, i: int, j: int) -> (int, int, int)
    decreases a.len() - i + b.len() - j,
{
    if !(0 <= i < a.len()) || !(0 <= j < b.len()) {
        (0, 0, 0)
    } else if a[i].innov < b[j].innov {
        let rest = merge_counts(a, b, i + 1, j);
        (rest.0 + 1, rest.1, rest.2)
    } else if b[j].innov < a[i].innov {
        let rest = merge_counts(a, b, i, j + 1);
        (rest.0 + 1, rest.1, rest.2)
    } else {
        let rest = merge_counts(a, b, i + 1, j + 1);
        let dw = if a[i].weight >= b[j].weight {
            a[i].weight - b[j].weight
        } else {
            b[j].weight - a[i].weight
        };
        (rest.0, rest.1 + 1, rest.2 + dw)
    }
}

/// The compatibility distance of two genomes, fixed-point: excess and
/// disjoint genes weighted and normalised by `norm`, plus the mean absolute
/// weight difference over matching genes weighted by `wc`. A pair with no
/// matching genes contributes no weight term, which settles the
/// zero-matching edge case deterministically.
pub open spec fn compat_dist(a: Seq<Link>, b: Seq<Link>, ec: u64, dc: u64, wc: u64, norm: u64) -> int {
    let c = merge_counts(a, b, 0, 0);
    let ex = a.len() + b.len() - c.0 - 2 * c.1;
    (ec * ex + dc * c.0) * (FX_ONE as int) / (norm as int) + if c.1 == 0 {
        0int
    } else {
        wc * c.2 / (c.1 * (FX_ONE as int))
    }
}

/// The merge walk of a genome against itself matches every gene exactly,
/// with no weight difference.
pub proof fn lemma_merge_self(a: Seq<Link>, i: int)
    requires
        0 <= i <= a.len(),
    ensures
        merge_counts(a, a, i, i) == (0int, a.len() - i, 0int),
    decreases a.len() - i,
{
    if i < a.len() {
        lemma_merge_self(a, i + 1);
    }
}

/// Law: a genome's compatibility distance to itself is zero, whatever the
/// coefficients, normalisation and threshold — including the genome with no
/// genes, where the zero-matching edge case applies.
pub proof fn lemma_compat_self(a: Seq<Link>, ec: u64, dc: u64, wc: u64, norm: u64)
    requires
        norm >= 1,
    ensures
        compat_dist(a, a, ec, dc, wc, norm) == 0,
{
    lemma_merge_self(a, 0);
    let c = merge_counts(a, a, 0, 0);
    assert(c.0 == 0 && c.1 == a.len() && c.2 == 0);
    assert(a.len() + a.len() - c.0 - 2 * c.1 == 0);
    assert((ec * 0 + dc * 0) * (FX_ONE as int) == 0) by (nonlinear_arith);
    assert(0int / (norm as int) == 0);
    if c.1 != 0 {
        assert(wc * 0 == 0) by (nonlinear_arith);
        assert(0int / (c.1 * (FX_ONE as int)) == 0);
    }
}

/// The sum of a sequence of shared fitnesses.
pub open spec fn sum_fitness(s: Seq<u64>) -> int
    decreases s.len(),
{
    if s.len() == 0 {
        0
    } else {
        sum_fitness(s.drop_last()) + s.last()
    }
}

/// The best fitness among `members`, starting from `init`.
pub open spec fn run_best(nets: Seq<Net>, members: Seq<usize>, init: u64) -> u64
    decreases members.len(),
{
    if members.len() == 0 {
        init
    } else {
        let f = nets[members[0] as int].fitness;
        run_best(nets, members.drop_first(), if init < f {
            f
        } else {
            init
        })
    }
}

impl Species {
    /// Creates a species seeded by a genome: the representative is a value
    /// copy of the seed, with no members and fresh bookkeeping.
    pub fn new(net: &Net) -> (out: Species)
        ensures
            out.members@.len() == 0,
            out.members_shared_fitness@.len() == 0,
            net_equiv(out.repr, *net),
            out.staleness == 0,
            out.best_fitness == 0,
            out.avarage_fitness == 0,
    {
        Species {
            members: Vec::new(),
            members_shared_fitness: Vec::new(),
            repr: net.clone(),
            staleness: 0,
            best_fitness: 0,
            avarage_fitness: 0,
        }
    }

    /// Replaces the representative with a value copy of a uniformly chosen
    /// surviving member.
    pub fn choose_random_repr(&mut self, nets: &Vec<Net>)
        requires
            old(self).members@.len() >= 1,
            forall|i: int|
                0 <= i < old(self).members@.len() ==> #[trigger] old(self).members@[i]
                    < nets@.len(),
        ensures
            final(self).members@ == old(self).members@,
            final(self).members_shared_fitness@ == old(self).members_shared_fitness@,
            final(self).staleness == old(self).staleness,
            final(self).best_fitness == old(self).best_fitness,
            final(self).avarage_fitness == old(self).avarage_fitness,
            exists|i: int|
                0 <= i < old(self).members@.len() && net_equiv(
                    final(self).repr,
                    nets@[#[trigger] old(self).members@[i] as int],
                ),
    {
        let pick = rand_below(self.members.len() as u64) as usize;
        let repr_pop_index = self.members[pick];
        self.repr = nets[repr_pop_index].clone();
        proof {
            assert(net_equiv(self.repr, nets@[old(self).members@[pick as int] as int]));
        }
    }

    /// Offers a genome to this species: if it is not yet placed and its
    /// compatibility distance to the representative is under the threshold,
    /// it joins and is marked placed; otherwise nothing changes. The
    /// distance follows the configured coefficients and normalisation, with
    /// a zero weight term when no genes match.
    pub fn add_member<C: Conf>(&mut self, net: &mut Net, net_index: usize, conf: &C)
        requires
            links_sorted(old(net).links@),
            links_sorted(old(self).repr.links@),
            forall|k: int|
                0 <= k < old(net).links@.len() ==> -W_MAX <= (#[trigger] old(
                    net,
                ).links@[k]).weight <= W_MAX,
            forall|k: int|
                0 <= k < old(self).repr.links@.len() ==> -W_MAX <= (#[trigger] old(
                    self,
                ).repr.links@[k]).weight <= W_MAX,
        ensures
            final(self).members_shared_fitness@ == old(self).members_shared_fitness@,
            final(self).repr == old(self).repr,
            final(self).staleness == old(self).staleness,
            final(self).best_fitness == old(self).best_fitness,
            final(self).avarage_fitness == old(self).avarage_fitness,
            final(net).inputs_count == old(net).inputs_count,
            final(net).outputs_count == old(net).outputs_count,
            final(net).nodes == old(net).nodes,
            final(net).links == old(net).links,
            final(net).fitness == old(net).fitness,
            old(net).in_species ==> final(net).in_species && final(self).members@ == old(
                self,
            ).members@,
            !old(net).in_species ==> {
                let joins = compat_dist(
                    old(net).links@,
                    old(self).repr.links@,
                    conf.spec_excess_coef(),
                    conf.spec_disjoint_coef(),
                    conf.spec_weight_diff_coef(),
                    conf.spec_size_norm(
                        old(net).links@.len() as int,
                        old(self).repr.links@.len() as int,
                    ),
                ) < conf.spec_compat_threshold() as int;
                &&& final(net).in_species == joins
                &&& (joins ==> final(self).members@ == old(self).members@.push(net_index))
                &&& (!joins ==> final(self).members@ == old(self).members@)
            },
    {
        if net.in_species {
            return ;
        }
        let a_len = net.links.len();
        let b_len = self.repr.links.len();
        let mut disjoint: u128 = 0;
        let mut matching: u128 = 0;
        let mut weight_diff_sum: u128 = 0;
        let mut i: usize = 0;
        let mut j: usize = 0;
        while i < a_len && j < b_len
            invariant
                a_len == net.links@.len(),
                b_len == self.repr.links@.len(),
                i <= a_len,
                j <= b_len,
                net.links@ == old(net).links@,
                self.repr == old(self).repr,
                disjoint <= i + j,
                disjoint + 2 * matching == i + j,
                matching <= i && matching <= j,
                weight_diff_sum <= matching * (2 * (W_MAX as int)),
                forall|k: int|
                    0 <= k < net.links@.len() ==> -W_MAX <= (#[trigger] net.links@[k]).weight
                        <= W_MAX,
                forall|k: int|
                    0 <= k < self.repr.links@.len() ==> -W_MAX <= (
                    #[trigger] self.repr.links@[k]).weight <= W_MAX,
                merge_counts(net.links@, self.repr.links@, 0, 0) == {
                    let rest = merge_counts(net.links@, self.repr.links@, i as int, j as int);
                    (disjoint + rest.0, matching + rest.1, weight_diff_sum + rest.2)
                },
            decreases a_len - i + b_len - j,
        {
            let la = self.repr.links[j];
            let lb = net.links[i];
            if net.links[i].innov < la.innov {
                disjoint += 1;
                i += 1;
            } else if la.innov < lb.innov {
                disjoint += 1;
                j += 1;
            } else {
                let wa = lb.weight;
                let wb = la.weight;
                let dw: u64 = if wa >= wb {
                    (wa - wb) as u64
                } else {
                    (wb - wa) as u64
                };
                proof {
                    assert((matching + 1) * (2 * (W_MAX as int)) == matching * (2 * (
                    W_MAX as int)) + 2 * (W_MAX as int)) by (nonlinear_arith);
                    assert(matching * (2 * (W_MAX as int)) <= (a_len as int) * (2 * (
                    W_MAX as int))) by (nonlinear_arith)
                        requires
                            0 <= matching as int <= a_len as int,
                    ;
                    assert((usize::MAX as int) * (2 * (W_MAX as int)) + 2 * (W_MAX as int)
                        < u128::MAX as int) by (nonlinear_arith);
                    assert((a_len as int) * (2 * (W_MAX as int)) <= (usize::MAX as int) * (2 * (
                    W_MAX as int))) by (nonlinear_arith)
                        requires
                            0 <= a_len as int <= usize::MAX as int,
                    ;
                }
                matching += 1;
                weight_diff_sum += dw as u128;
                i += 1;
                j += 1;
            }
        }
        proof {
            assert(matching as int <= a_len as int);
        }
        let ghost c = merge_counts(net.links@, self.repr.links@, 0, 0);
        proof {
            assert(merge_counts(net.links@, self.repr.links@, i as int, j as int) == (
            0int,
            0int,
            0int,
            ));
            assert(c == (disjoint as int, matching as int, weight_diff_sum as int));
        }
        let excess = (a_len - i) + (b_len - j);
        proof {
            assert(a_len + b_len - c.0 - 2 * c.1 == excess as int);
        }
        proof {
            assert(disjoint as int <= 2 * (usize::MAX as int));
            assert(excess as int <= 2 * (usize::MAX as int));
        }
        let ec = conf.get_excess_coef();
        let dc = conf.get_disjoint_coef();
        let wc = conf.get_weight_diff_coef();
        let norm = conf.size_norm(a_len, b_len);
        let threshold = conf.get_compat_threshold();
        proof {
            assert((ec as int) * (excess as int) <= (COEF_CAP as int) * (2 * (
            usize::MAX as int))) by (nonlinear_arith)
                requires
                    0 <= ec as int <= COEF_CAP as int,
                    0 <= excess as int <= 2 * (usize::MAX as int),
            ;
            assert((dc as int) * (disjoint as int) <= (COEF_CAP as int) * (2 * (
            usize::MAX as int))) by (nonlinear_arith)
                requires
                    0 <= dc as int <= COEF_CAP as int,
                    0 <= disjoint as int <= 2 * (usize::MAX as int),
            ;
            assert((2 * ((COEF_CAP as int) * (2 * (usize::MAX as int)))) * (FX_ONE as int)
                < u128::MAX as int) by (nonlinear_arith);
            assert(((ec as int) * (excess as int) + (dc as int) * (disjoint as int)) * (
            FX_ONE as int) <= (2 * ((COEF_CAP as int) * (2 * (usize::MAX as int)))) * (
            FX_ONE as int)) by (nonlinear_arith)
                requires
                    0 <= (ec as int) * (excess as int) + (dc as int) * (disjoint as int) <= 2 * ((
                    COEF_CAP as int) * (2 * (usize::MAX as int))),
            ;
        }
        let term1: u128 = ((ec as u128) * (excess as u128) + (dc as u128) * (disjoint as u128))
            * (FX_ONE as u128) / (norm as u128);
        let term2: u128 = if matching == 0 {
            0
        } else {
            proof {
                assert(weight_diff_sum as int <= (usize::MAX as int) * (2 * (W_MAX as int)))
                    by (nonlinear_arith)
                    requires
                        weight_diff_sum as int <= (matching as int) * (2 * (W_MAX as int)),
                        0 <= matching as int <= usize::MAX as int,
                ;
                assert((wc as int) * (weight_diff_sum as int) <= (COEF_CAP as int) * ((
                usize::MAX as int) * (2 * (W_MAX as int)))) by (nonlinear_arith)
                    requires
                        0 <= wc as int <= COEF_CAP as int,
                        0 <= weight_diff_sum as int <= (usize::MAX as int) * (2 * (W_MAX as int)),
                ;
                assert((COEF_CAP as int) * ((usize::MAX as int) * (2 * (W_MAX as int)))
                    < u128::MAX as int) by (nonlinear_arith);
                assert((matching as int) * (FX_ONE as int) <= (2 * (usize::MAX as int)) * (
                FX_ONE as int)) by (nonlinear_arith)
                    requires
                        0 <= matching as int <= 2 * (usize::MAX as int),
                ;
                assert((2 * (usize::MAX as int)) * (FX_ONE as int) < u128::MAX as int)
                    by (nonlinear_arith);
            }
            (wc as u128) * weight_diff_sum / ((matching as u128) * (FX_ONE as u128))
        };
        proof {
            assert(term1 as int == (ec * (excess as int) + dc * (disjoint as int)) * (
            FX_ONE as int) / (norm as int));
            if matching != 0 {
                assert(term2 as int == wc * (weight_diff_sum as int) / ((matching as int) * (
                FX_ONE as int)));
            }
            assert(term1 + term2 == compat_dist(
                net.links@,
                self.repr.links@,
                conf.spec_excess_coef(),
                conf.spec_disjoint_coef(),
                conf.spec_weight_diff_coef(),
                conf.spec_size_norm(net.links@.len() as int, self.repr.links@.len() as int),
            ));
        }
        proof {
            assert(term1 <= (2 * ((COEF_CAP as int) * (2 * (usize::MAX as int)))) * (
            FX_ONE as int)) by (nonlinear_arith)
                requires
                    term1 as int == ((ec as int) * (excess as int) + (dc as int) * (
                    disjoint as int)) * (FX_ONE as int) / (norm as int),
                    0 <= ((ec as int) * (excess as int) + (dc as int) * (disjoint as int)) * (
                    FX_ONE as int) <= (2 * ((COEF_CAP as int) * (2 * (usize::MAX as int)))) * (
                    FX_ONE as int),
                    1 <= norm as int,
            ;
            if matching == 0 {
                assert(term2 == 0);
                assert(0 <= (COEF_CAP as int) * ((usize::MAX as int) * (2 * (W_MAX as int))))
                    by (nonlinear_arith);
            } else {
                assert(weight_diff_sum as int <= (usize::MAX as int) * (2 * (W_MAX as int)))
                    by (nonlinear_arith)
                    requires
                        weight_diff_sum as int <= (matching as int) * (2 * (W_MAX as int)),
                        0 <= matching as int <= usize::MAX as int,
                ;
                assert(term2 as int <= (wc as int) * (weight_diff_sum as int))
                    by (nonlinear_arith)
                    requires
                        term2 as int == (wc as int) * (weight_diff_sum as int) / ((
                        matching as int) * (FX_ONE as int)),
                        1 <= matching as int,
                        0 <= (wc as int) * (weight_diff_sum as int),
                ;
                assert((wc as int) * (weight_diff_sum as int) <= (COEF_CAP as int) * ((
                usize::MAX as int) * (2 * (W_MAX as int)))) by (nonlinear_arith)
                    requires
                        0 <= wc as int <= COEF_CAP as int,
                        0 <= weight_diff_sum as int <= (usize::MAX as int) * (2 * (W_MAX as int)),
                ;
            }
            assert((2 * ((COEF_CAP as int) * (2 * (usize::MAX as int)))) * (FX_ONE as int) + (
            COEF_CAP as int) * ((usize::MAX as int) * (2 * (W_MAX as int))) < u128::MAX as int)
                by (nonlinear_arith);
        }
        if term1 + term2 < threshold as u128 {
            self.members.push(net_index);
            net.in_species = true;
        }
    }

    /// Shares fitness: staleness rises by one, falling back to zero (with
    /// the best fitness updated) when any member beats the best fitness
    /// seen; each member's shared fitness is its raw fitness divided by the
    /// member count; and the species average is the exact sum of the shared
    /// fitnesses.
    pub fn fitness_sharing(&mut self, nets: &Vec<Net>)
        requires
            old(self).staleness < u32::MAX,
            old(self).members@.len() <= SIZE_CAP,
            forall|i: int|
                0 <= i < old(self).members@.len() ==> #[trigger] old(self).members@[i]
                    < nets@.len(),
            forall|i: int|
                0 <= i < old(self).members@.len() ==> nets@[#[trigger] old(
                    self,
                ).members@[i] as int].fitness <= FIT_CAP,
        ensures
            final(self).members@ == old(self).members@,
            final(self).repr == old(self).repr,
            final(self).best_fitness == run_best(nets@, old(self).members@, old(self).best_fitness),
            final(self).staleness == if run_best(nets@, old(self).members@, old(self).best_fitness)
                > old(self).best_fitness {
                0u32
            } else {
                (old(self).staleness + 1) as u32
            },
            final(self).members_shared_fitness@.len() == old(self).members@.len(),
            forall|i: int|
                0 <= i < old(self).members@.len()
                    ==> #[trigger] final(self).members_shared_fitness@[i] == nets@[old(
                    self,
                ).members@[i] as int].fitness as u64 / (old(self).members@.len() as u64),
            final(self).avarage_fitness == sum_fitness(final(self).members_shared_fitness@),
            final(self).avarage_fitness <= old(self).members@.len() * FIT_CAP,
    {
        self.staleness = self.staleness + 1;
        let count = self.members.len();
        let mut shared: Vec<u64> = Vec::new();
        let mut avg: u64 = 0;
        let mut i: usize = 0;
        while i < count
            invariant
                count == self.members@.len(),
                self.members@ == old(self).members@,
                self.repr == old(self).repr,
                count <= SIZE_CAP,
                i <= count,
                shared@.len() == i,
                forall|k: int|
                    0 <= k < count ==> #[trigger] self.members@[k] < nets@.len(),
                forall|k: int|
                    0 <= k < count ==> nets@[#[trigger] self.members@[k] as int].fitness <= FIT_CAP,
                forall|k: int|
                    0 <= k < i ==> #[trigger] shared@[k] == nets@[self.members@[k] as int].fitness
                        as u64 / (count as u64),
                avg == sum_fitness(shared@),
                avg <= i * FIT_CAP,
                self.best_fitness == run_best(
                    nets@,
                    old(self).members@.take(i as int),
                    old(self).best_fitness,
                ),
                self.staleness == if run_best(
                    nets@,
                    old(self).members@.take(i as int),
                    old(self).best_fitness,
                ) > old(self).best_fitness {
                    0u32
                } else {
                    (old(self).staleness + 1) as u32
                },
                old(self).best_fitness <= self.best_fitness,
                old(self).staleness < u32::MAX,
            decreases count - i,
        {
            let m = self.members[i];
            let f = nets[m].fitness;
            proof {
                lemma_run_best_step(nets@, old(self).members@, old(self).best_fitness, i as int);
                assert((i + 1) * FIT_CAP == i * FIT_CAP + FIT_CAP) by (nonlinear_arith);
                assert(i * FIT_CAP <= SIZE_CAP * FIT_CAP) by (nonlinear_arith)
                    requires
                        0 <= i as int <= SIZE_CAP as int,
                ;
            }
            if self.best_fitness < f {
                self.staleness = 0;
                self.best_fitness = f;
            }
            let s = f / (count as u64);
            proof {
                assert(s <= f);
                lemma_sum_fitness_push(shared@, s);
            }
            shared.push(s);
            avg = avg + s;
            i += 1;
        }
        proof {
            assert(old(self).members@.take(count as int) =~= old(self).members@);
        }
        self.members_shared_fitness = shared;
        self.avarage_fitness = avg;
        proof {
            assert((count as int) * FIT_CAP == count * FIT_CAP);
        }
    }

    /// Picks a parent by fitness-proportionate sampling: one uniform draw
    /// in `[0, avarage_fitness)` resolved by a single cumulative scan.
    /// When every shared fitness is zero the draw is uniform over the
    /// members. The result is always one of the members.
    pub fn choose_parent(&self) -> (r: usize)
        requires
            self.members@.len() >= 1,
            self.members_shared_fitness@.len() == self.members@.len(),
            self.avarage_fitness == sum_fitness(self.members_shared_fitness@),
        ensures
            exists|i: int| 0 <= i < self.members@.len() && r == #[trigger] self.members@[i],
            self.avarage_fitness > 0 ==> exists|i: int|
                0 <= i < self.members@.len() && r == #[trigger] self.members@[i]
                    && self.members_shared_fitness@[i] > 0,
    {
        if self.avarage_fitness == 0 {
            let pick = rand_below(self.members.len() as u64) as usize;
            proof {
                assert(self.members@[pick as int] == self.members@[pick as int]);
            }
            return self.members[pick];
        }
        let target = rand_below(self.avarage_fitness);
        let mut sum: u64 = 0;
        let mut i: usize = 0;
        while i < self.members_shared_fitness.len()
            invariant
                self.members_shared_fitness@.len() == self.members@.len(),
                i <= self.members_shared_fitness@.len(),
                self.avarage_fitness == sum_fitness(self.members_shared_fitness@),
                sum == sum_fitness(self.members_shared_fitness@.take(i as int)),
                target >= sum,
                target < self.avarage_fitness,
            decreases self.members_shared_fitness@.len() - i,
        {
            proof {
                lemma_sum_fitness_take(self.members_shared_fitness@, i as int);
                lemma_sum_fitness_prefix_bound(self.members_shared_fitness@, i + 1 as int);
            }
            sum = sum + self.members_shared_fitness[i];
            if target < sum {
                proof {
                    assert(self.members@[i as int] == self.members@[i as int]);
                    assert(self.members_shared_fitness@[i as int] > 0);
                }
                return self.members[i];
            }
            i += 1;
        }
        proof {
            assert(self.members_shared_fitness@.take(
                self.members_shared_fitness@.len() as int,
            ) =~= self.members_shared_fitness@);
            assert(false);
        }
        self.members[0]
    }

    /// Picks two parents with two independent uniform draws, ordered and
    /// resolved in one cumulative scan, as fitness-proportionate sampling:
    /// the first parent returned is the one the scan reaches first. With
    /// all-zero shared fitness both picks are uniform. Both results are
    /// members.
    pub fn choose_parents(&self) -> (r: (usize, usize))
        requires
            self.members@.len() >= 1,
            self.members_shared_fitness@.len() == self.members@.len(),
            self.avarage_fitness == sum_fitness(self.members_shared_fitness@),
        ensures
            exists|i: int, j: int|
                0 <= i <= j < self.members@.len() && r.0 == #[trigger] self.members@[i] && r.1
                    == #[trigger] self.members@[j],
            exists|i: int| 0 <= i < self.members@.len() && r.0 == #[trigger] self.members@[i],
            exists|i: int| 0 <= i < self.members@.len() && r.1 == #[trigger] self.members@[i],
            self.avarage_fitness > 0 ==> exists|i: int, j: int|
                0 <= i <= j < self.members@.len() && r.0 == #[trigger] self.members@[i] && r.1
                    == #[trigger] self.members@[j] && self.members_shared_fitness@[i] > 0
                    && self.members_shared_fitness@[j] > 0,
    {
        if self.avarage_fitness == 0 {
            let d1 = rand_below(self.members.len() as u64) as usize;
            let d2 = rand_below(self.members.len() as u64) as usize;
            let a = if d1 <= d2 {
                d1
            } else {
                d2
            };
            let b = if d1 <= d2 {
                d2
            } else {
                d1
            };
            proof {
                assert(self.members@[a as int] == self.members@[a as int]);
                assert(self.members@[b as int] == self.members@[b as int]);
            }
            return (self.members[a], self.members[b]);
        }
        let d1 = rand_below(self.avarage_fitness);
        let d2 = rand_below(self.avarage_fitness);
        let t1 = if d1 <= d2 {
            d1
        } else {
            d2
        };
        let t2 = if d1 <= d2 {
            d2
        } else {
            d1
        };
        let len = self.members.len();
        let mut sum: u64 = 0;
        let mut p1: usize = len;
        let mut i: usize = 0;
        while i < len
            invariant
                len == self.members@.len(),
                self.members_shared_fitness@.len() == self.members@.len(),
                i <= len,
                self.avarage_fitness == sum_fitness(self.members_shared_fitness@),
                sum == sum_fitness(self.members_shared_fitness@.take(i as int)),
                t1 <= t2,
                t2 < self.avarage_fitness,
                p1 == len || (p1 < i && self.members_shared_fitness@[p1 as int] > 0),
                p1 == len ==> t1 >= sum,
                t2 >= sum,
            decreases len - i,
        {
            proof {
                lemma_sum_fitness_take(self.members_shared_fitness@, i as int);
                lemma_sum_fitness_prefix_bound(self.members_shared_fitness@, i + 1 as int);
            }
            sum = sum + self.members_shared_fitness[i];
            if p1 == len && t1 < sum {
                p1 = i;
            }
            if t2 < sum {
                proof {
                    assert(p1 < len);
                    assert(p1 <= i);
                    assert(self.members@[p1 as int] == self.members@[p1 as int]);
                    assert(self.members@[i as int] == self.members@[i as int]);
                    assert(self.members_shared_fitness@[p1 as int] > 0);
                    assert(self.members_shared_fitness@[i as int] > 0);
                }
                return (self.members[p1], self.members[i]);
            }
            i += 1;
        }
        proof {
            assert(self.members_shared_fitness@.take(
                self.members_shared_fitness@.len() as int,
            ) =~= self.members_shared_fitness@);
            assert(false);
        }
        (self.members[0], self.members[0])
    }

    /// Culls the species: members are sorted by descending fitness (a
    /// selection sort, taking the earliest of equally fit members first)
    /// and the list is truncated to `ceil(cull_survival_percentage *
    /// member_count)` survivors, at least one when any member existed.
    pub fn cull<C: Conf>(&mut self, nets: &Vec<Net>, conf: &C)
        requires
            forall|i: int|
                0 <= i < old(self).members@.len() ==> #[trigger] old(self).members@[i]
                    < nets@.len(),
        ensures
            final(self).members_shared_fitness@ == old(self).members_shared_fitness@,
            final(self).repr == old(self).repr,
            final(self).staleness == old(self).staleness,
            final(self).best_fitness == old(self).best_fitness,
            final(self).avarage_fitness == old(self).avarage_fitness,
            final(self).members@.len() == ((conf.spec_cull_pct() * old(self).members@.len() + (
            PROB_ONE - 1)) as int) / (PROB_ONE as int),
            old(self).members@.len() >= 1 ==> final(self).members@.len() >= 1,
            final(self).members@.len() <= old(self).members@.len(),
            forall|a: int, b: int|
                0 <= a < b < final(self).members@.len()
                    ==> nets@[(#[trigger] final(self).members@[a]) as int].fitness
                    >= nets@[(#[trigger] final(self).members@[b]) as int].fitness,
            forall|i: int|
                0 <= i < final(self).members@.len() ==> old(self).members@.contains(
                    #[trigger] final(self).members@[i],
                ),
            exists|rest: Seq<usize>|
                {
                    &&& #[trigger] (final(self).members@ + rest).to_multiset()
                        == old(self).members@.to_multiset()
                    &&& forall|a: int, b: int|
                        0 <= a < b < (final(self).members@ + rest).len()
                            ==> nets@[(final(self).members@ + rest)[a] as int].fitness
                            >= nets@[(final(self).members@ + rest)[b] as int].fitness
                },
    {
        let ghost orig = self.members@;
        let mut work: Vec<usize> = Vec::new();
        let mut t: usize = 0;
        while t < self.members.len()
            invariant
                t <= self.members@.len(),
                self.members@ == orig,
                work@ == orig.take(t as int),
            decreases self.members@.len() - t,
        {
            work.push(self.members[t]);
            proof {
                assert(work@ =~= orig.take(t + 1 as int));
            }
            t += 1;
        }
        proof {
            assert(orig.take(orig.len() as int) =~= orig);
        }
        let mut sorted: Vec<usize> = Vec::new();
        proof {
            broadcast use vstd::multiset::group_multiset_axioms;

            let es = Seq::<usize>::empty();
            es.to_multiset_ensures();
            assert forall|v: usize| #[trigger] es.to_multiset().count(v) == 0 by {
                assert(!es.contains(v));
            }
            assert(sorted@ =~= es);
            assert(sorted@.to_multiset().add(work@.to_multiset()) =~= orig.to_multiset());
        }
        while work.len() > 0
            invariant
                sorted@.to_multiset().add(work@.to_multiset()) == orig.to_multiset(),
                sorted@.len() + work@.len() == orig.len(),
                forall|i: int| 0 <= i < work@.len() ==> orig.contains(#[trigger] work@[i]),
                forall|i: int| 0 <= i < sorted@.len() ==> orig.contains(#[trigger] sorted@[i]),
                forall|i: int| 0 <= i < work@.len() ==> #[trigger] work@[i] < nets@.len(),
                forall|i: int| 0 <= i < sorted@.len() ==> #[trigger] sorted@[i] < nets@.len(),
                forall|a: int, b: int|
                    0 <= a < b < sorted@.len() ==> nets@[#[trigger] sorted@[a] as int].fitness
                        >= nets@[#[trigger] sorted@[b] as int].fitness,
                forall|a: int, b: int|
                    0 <= a < sorted@.len() && 0 <= b < work@.len() ==> nets@[#[trigger] sorted@[a] as int].fitness
                        >= nets@[#[trigger] work@[b] as int].fitness,
            decreases work@.len(),
        {
            let mut best: usize = 0;
            let mut w: usize = 1;
            while w < work.len()
                invariant
                    work@.len() >= 1,
                    best < w <= work@.len(),
                    forall|i: int| 0 <= i < work@.len() ==> #[trigger] work@[i] < nets@.len(),
                    forall|i: int|
                        0 <= i < w ==> nets@[work@[best as int] as int].fitness >= nets@[(
                        #[trigger] work@[i]) as int].fitness,
                decreases work@.len() - w,
            {
                if nets[work[best]].fitness < nets[work[w]].fitness {
                    best = w;
                }
                w += 1;
            }
            let ghost pre_work = work@;
            let ghost pre_sorted = sorted@;
            let x = work.remove(best);
            sorted.push(x);
            proof {
                broadcast use vstd::multiset::group_multiset_axioms;

                pre_work.to_multiset_ensures();
                pre_sorted.to_multiset_ensures();
                assert(pre_work.contains(x));
                assert(pre_work.to_multiset().count(x) > 0);
                assert(work@.to_multiset() =~= pre_work.to_multiset().remove(x));
                assert(sorted@.to_multiset() =~= pre_sorted.to_multiset().insert(x));
                assert(sorted@.to_multiset().add(work@.to_multiset()) =~= pre_sorted.to_multiset().add(
                    pre_work.to_multiset(),
                ));
            }
        }
        let pct = conf.get_cull_survival_percentage();
        let len = sorted.len();
        proof {
            assert((pct as int) * (len as int) <= (PROB_ONE as int) * (usize::MAX as int))
                by (nonlinear_arith)
                requires
                    0 <= pct as int <= PROB_ONE as int,
                    0 <= len as int <= usize::MAX as int,
            ;
            assert((PROB_ONE as int) * (usize::MAX as int) + (PROB_ONE as int)
                < u128::MAX as int) by (nonlinear_arith);
        }
        let keep128: u128 = ((pct as u128) * (len as u128) + ((PROB_ONE - 1) as u128)) / (
        PROB_ONE as u128);
        proof {
            assert((pct as int) * (len as int) + (PROB_ONE - 1) < (PROB_ONE as int) * ((
            len as int) + 1)) by (nonlinear_arith)
                requires
                    1 <= pct as int <= PROB_ONE as int,
                    0 <= len as int,
            ;
            assert(((pct as int) * (len as int) + (PROB_ONE - 1)) / (PROB_ONE as int) <= len
                as int) by (nonlinear_arith)
                requires
                    (pct as int) * (len as int) + (PROB_ONE - 1) < (PROB_ONE as int) * ((
                    len as int) + 1),
                    0 <= (pct as int) * (len as int),
            ;
            if len >= 1 {
                assert((pct as int) * (len as int) >= 1) by (nonlinear_arith)
                    requires
                        1 <= pct as int,
                        1 <= len as int,
                ;
                assert(((pct as int) * (len as int) + (PROB_ONE - 1)) / (PROB_ONE as int) >= 1)
                    by (nonlinear_arith)
                    requires
                        (pct as int) * (len as int) + (PROB_ONE - 1) >= PROB_ONE as int,
                ;
            }
        }
        let keep = keep128 as usize;
        let ghost sorted_all = sorted@;
        sorted.truncate(keep);
        self.members = sorted;
        proof {
            broadcast use vstd::multiset::group_multiset_axioms;

            let rest = sorted_all.subrange(keep as int, sorted_all.len() as int);
            assert(self.members@ + rest =~= sorted_all);
            assert(work@ =~= Seq::<usize>::empty());
            work@.to_multiset_ensures();
            assert forall|v: usize| #[trigger] work@.to_multiset().count(v) == 0 by {
                assert(!work@.contains(v));
            }
            assert(sorted_all.to_multiset().add(work@.to_multiset()) =~= sorted_all.to_multiset());
            assert((self.members@ + rest).to_multiset() == sorted_all.to_multiset());
            assert((self.members@ + rest).to_multiset() == orig.to_multiset());
        }
    }

    /// Breeds one child: with the configured crossover probability two
    /// parents are drawn and crossed over (a lone duplicated draw falls
    /// back to a plain copy), otherwise a single drawn parent is copied.
    /// The child is then mutated. The result is well-formed against the
    /// grown ledger.
    pub fn make_child<C: Conf>(
        &self,
        innovs: &mut Vec<Innov>,
        old_innovs_count: usize,
        nets: &Vec<Net>,
        conf: &C,
    ) -> (out: Net)
        requires
            ledger_wf(old(innovs)@),
            old_innovs_count <= old(innovs)@.len(),
            self.members@.len() >= 1,
            self.members_shared_fitness@.len() == self.members@.len(),
            self.avarage_fitness == sum_fitness(self.members_shared_fitness@),
            forall|i: int|
                0 <= i < self.members@.len() ==> #[trigger] self.members@[i] < nets@.len(),
            forall|i: int| 0 <= i < nets@.len() ==> net_wf(#[trigger] nets@[i], old(innovs)@),
        ensures
            net_wf(out, final(innovs)@),
            ledger_wf(final(innovs)@),
            old(innovs)@.is_prefix_of(final(innovs)@),
            exists|i: int|
                0 <= i < self.members@.len() && out.inputs_count == nets@[(
                #[trigger] self.members@[i]) as int].inputs_count && out.outputs_count == nets@[(
                self.members@[i]) as int].outputs_count && out.fitness == nets@[(
                self.members@[i]) as int].fitness && crate::neuralnet::ids_from(
                    nets@[(self.members@[i]) as int].links@,
                    out.links@,
                    old_innovs_count,
                ),
    {
        let mut out: Net;
        let ghost base: int;
        if coin(conf.get_crossover_prob()) {
            let (p1, p2) = self.choose_parents();
            proof {
                base = choose|i: int|
                    0 <= i < self.members@.len() && p1 == #[trigger] self.members@[i];
            }
            if p1 != p2 {
                out = nets[p1].crossover(&nets[p2], conf);
                proof {
                    lemma_crossover_wf(out, nets@[p1 as int], nets@[p2 as int], innovs@);
                }
            } else {
                out = nets[p1].clone();
                proof {
                    crate::neuralnet::lemma_equiv_wf(out, nets@[p1 as int], innovs@);
                }
            }
        } else {
            let p = self.choose_parent();
            proof {
                base = choose|i: int|
                    0 <= i < self.members@.len() && p == #[trigger] self.members@[i];
            }
            out = nets[p].clone();
            proof {
                crate::neuralnet::lemma_equiv_wf(out, nets@[p as int], innovs@);
            }
        }
        let ghost base_links = out.links@;
        proof {
            assert(out.inputs_count == nets@[self.members@[base] as int].inputs_count
                && out.outputs_count == nets@[self.members@[base] as int].outputs_count
                && out.fitness == nets@[self.members@[base] as int].fitness);
            // the base carries exactly the chosen member's gene ids
            assert forall|k: int| 0 <= k < base_links.len() implies crate::neuralnet::has_innov(
                nets@[self.members@[base] as int].links@,
                (#[trigger] base_links[k]).innov,
            ) || old_innovs_count <= base_links[k].innov by {
                assert(nets@[self.members@[base] as int].links@[k].innov == base_links[k].innov);
            }
            assert(crate::neuralnet::ids_from(
                nets@[self.members@[base] as int].links@,
                base_links,
                old_innovs_count,
            ));
        }
        out.mutate(innovs, old_innovs_count, conf);
        proof {
            crate::neuralnet::lemma_ids_from_trans(
                nets@[self.members@[base] as int].links@,
                base_links,
                out.links@,
                old_innovs_count,
            );
        }
        out
    }

    /// Empties the member list; representative and staleness persist.
    pub fn clear(&mut self)
        ensures
            final(self).members@.len() == 0,
            final(self).members_shared_fitness@ == old(self).members_shared_fitness@,
            final(self).repr == old(self).repr,
            final(self).staleness == old(self).staleness,
            final(self).best_fitness == old(self).best_fitness,
            final(self).avarage_fitness == old(self).avarage_fitness,
    {
        self.members.clear();
    }
}

/// Unfolds one step of the running best fitness.
proof fn lemma_run_best_step(nets: Seq<Net>, members: Seq<usize>, init: u64, i: int)
    requires
        0 <= i < members.len(),
    ensures
        run_best(nets, members.take(i + 1), init) == {
            let f = nets[members[i] as int].fitness;
            let prev = run_best(nets, members.take(i), init);
            if prev < f {
                f
            } else {
                prev
            }
        },
    decreases i + members.len(),
{
    lemma_run_best_last(nets, members.take(i + 1), init);
    assert(members.take(i + 1).drop_last() =~= members.take(i));
    assert(members.take(i + 1).last() == members[i]);
}

/// The running best over a non-empty list folds from its last element.
proof fn lemma_run_best_last(nets: Seq<Net>, members: Seq<usize>, init: u64)
    requires
        members.len() >= 1,
    ensures
        run_best(nets, members, init) == {
            let f = nets[members.last() as int].fitness;
            let prev = run_best(nets, members.drop_last(), init);
            if prev < f {
                f
            } else {
                prev
            }
        },
    decreases members.len(),
{
    if members.len() == 1 {
        assert(members.drop_last() =~= Seq::<usize>::empty());
        assert(members.drop_first() =~= Seq::<usize>::empty());
        let f0 = nets[members[0] as int].fitness;
        let init2 = if init < f0 {
            f0
        } else {
            init
        };
        assert(run_best(nets, members.drop_first(), init2) == init2);
        assert(run_best(nets, members, init) == init2);
        assert(run_best(nets, members.drop_last(), init) == init);
        assert(members.last() == members[0]);
    } else {
        let f0 = nets[members[0] as int].fitness;
        let init2 = if init < f0 {
            f0
        } else {
            init
        };
        let tail = members.drop_first();
        lemma_run_best_last(nets, tail, init2);
        assert(tail.last() == members.last());
        assert(tail.drop_last() =~= members.drop_last().drop_first());
        assert(members.drop_last()[0] == members[0]);
        assert(members.drop_last().len() >= 1);
        assert(run_best(nets, members, init) == run_best(nets, tail, init2));
        assert(run_best(nets, members.drop_last(), init) == run_best(
            nets,
            members.drop_last().drop_first(),
            init2,
        ));
        assert(run_best(nets, members.drop_last(), init) == run_best(
            nets,
            tail.drop_last(),
            init2,
        ));
    }
}

/// Appending to a fitness list adds its value to the sum.
proof fn lemma_sum_fitness_push(s: Seq<u64>, v: u64)
    ensures
        sum_fitness(s.push(v)) == sum_fitness(s) + v,
{
    assert(s.push(v).drop_last() =~= s);
}

/// Unfolds one step of a prefix fitness sum.
proof fn lemma_sum_fitness_take(s: Seq<u64>, i: int)
    requires
        0 <= i < s.len(),
    ensures
        sum_fitness(s.take(i + 1)) == sum_fitness(s.take(i)) + s[i],
{
    assert(s.take(i + 1).drop_last() =~= s.take(i));
    assert(s.take(i + 1).last() == s[i]);
}

/// Every prefix sum is at most the whole sum.
proof fn lemma_sum_fitness_prefix_bound(s: Seq<u64>, i: int)
    requires
        0 <= i <= s.len(),
    ensures
        sum_fitness(s.take(i)) <= sum_fitness(s),
    decreases s.len() - i,
{
    if i < s.len() {
        lemma_sum_fitness_take(s, i);
        lemma_sum_fitness_prefix_bound(s, i + 1);
    } else {
        assert(s.take(i) =~= s);
    }
}

} // verus!
