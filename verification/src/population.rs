//! The population: all genomes, all species and the innovation ledger,
//! with the full generation transition.

use vstd::prelude::*;

verus! {

use crate::conf::Conf;
use crate::ledger::{ledger_wf, Innov};
use crate::neuralnet::{has_pair, ids_from, lemma_equiv_wf, lemma_wf_ledger_extend, link_from, link_to, net_equiv, net_wf, Net};
use crate::neuralnet::Link;
use crate::ledger::window_has_pair;
use crate::species::{compat_dist, sum_fitness, Species};
use crate::{FIT_CAP, PROB_ONE, SIZE_CAP};

/// Returned by a generation transition when every species has died out:
/// none had a living, non-stale membership to breed from.
#[derive(Clone, Copy, PartialEq, Eq, Structural)]
pub struct ExtinctionError;

/// Every genome is well-formed against the ledger.
pub open spec fn nets_ok(nets: Seq<Net>, innovs: Seq<Innov>) -> bool {
    forall|i: int| 0 <= i < nets.len() ==> net_wf(#[trigger] nets[i], innovs)
}

/// Every species' representative is well-formed against the ledger.
pub open spec fn species_ok(sp: Seq<Species>, innovs: Seq<Innov>) -> bool {
    forall|i: int| 0 <= i < sp.len() ==> net_wf((#[trigger] sp[i]).repr, innovs)
}

/// A well-formed population: a consistent ledger, exactly `size` genomes,
/// and every genome and representative well-formed against the ledger.
pub open spec fn pop_wf(p: Pop) -> bool {
    &&& ledger_wf(p.innovs@)
    &&& p.nets@.len() == p.size
    &&& nets_ok(p.nets@, p.innovs@)
    &&& species_ok(p.species@, p.innovs@)
}

/// The population: the fixed target size, the genomes of the living
/// generation, the species that persist across generations, and the
/// innovation ledger.
pub struct Pop {
    pub size: usize,
    pub nets: Vec<Net>,
    pub species: Vec<Species>,
    pub innovs: Vec<Innov>,
}



/// The projection of a species that decides assignment and survival: its
/// representative's genes, its staleness, and its member count.
pub open spec fn sp_state(sp: Species) -> (Seq<Link>, u32, int) {
    (sp.repr.links@, sp.staleness, sp.members@.len() as int)
}

/// The states of a species list.
pub open spec fn states_of(sps: Seq<Species>) -> Seq<(Seq<Link>, u32, int)> {
    Seq::new(sps.len(), |i: int| sp_state(sps[i]))
}

/// The species states at the start of assignment: member lists cleared,
/// representatives and staleness kept.
pub open spec fn cleared_states(sps: Seq<Species>) -> Seq<(Seq<Link>, u32, int)> {
    Seq::new(sps.len(), |i: int| (sps[i].repr.links@, sps[i].staleness, 0int))
}

/// Whether a genome with genes `links` joins a species state: its
/// compatibility distance to the state's representative genes lies under
/// the configured threshold.
pub open spec fn joins_state<C: Conf>(
    links: Seq<Link>,
    st: (Seq<Link>, u32, int),
    conf: C,
) -> bool {
    compat_dist(
        links,
        st.0,
        conf.spec_excess_coef(),
        conf.spec_disjoint_coef(),
        conf.spec_weight_diff_coef(),
        conf.spec_size_norm(links.len() as int, st.0.len() as int),
    ) < conf.spec_compat_threshold() as int
}

/// One genome offered along the species list, first fit: it joins the
/// first state under the threshold; a genome no state accepts seeds a new
/// species at the end of the list, becoming its representative but not a
/// member.
pub open spec fn offer_one<C: Conf>(
    state: Seq<(Seq<Link>, u32, int)>,
    links: Seq<Link>,
    conf: C,
) -> Seq<(Seq<Link>, u32, int)>
    decreases state.len(),
{
    if state.len() == 0 {
        seq![(links, 0u32, 0int)]
    } else if joins_state(links, state[0], conf) {
        state.update(0, (state[0].0, state[0].1, state[0].2 + 1))
    } else {
        seq![state[0]] + offer_one(state.drop_first(), links, conf)
    }
}

/// The whole assignment phase: every genome offered in order.
pub open spec fn assign_all<C: Conf>(
    state: Seq<(Seq<Link>, u32, int)>,
    nets: Seq<Net>,
    conf: C,
) -> Seq<(Seq<Link>, u32, int)>
    decreases nets.len(),
{
    if nets.len() == 0 {
        state
    } else {
        assign_all(offer_one(state, nets[0].links@, conf), nets.drop_first(), conf)
    }
}

/// A species state the maintenance phase removes: no members, or staleness
/// at or past the threshold — extinct on the generation staleness reaches
/// the threshold, not the one after.
pub open spec fn state_dead(st: (Seq<Link>, u32, int), threshold: u32) -> bool {
    st.2 == 0 || st.1 >= threshold
}

/// The number of states the maintenance phase keeps.
pub open spec fn alive_count(state: Seq<(Seq<Link>, u32, int)>, threshold: u32) -> int
    decreases state.len(),
{
    if state.len() == 0 {
        0
    } else {
        alive_count(state.drop_last(), threshold) + if state_dead(state.last(), threshold) {
            0int
        } else {
            1int
        }
    }
}

/// Every species state is dead: the whole population is extinct.
pub open spec fn all_extinct(state: Seq<(Seq<Link>, u32, int)>, threshold: u32) -> bool {
    forall|s: int| 0 <= s < state.len() ==> state_dead(#[trigger] state[s], threshold)
}


/// A surviving species descends from a live assignment state: it was kept
/// because that state had members and fresh staleness, its member list was
/// culled to the exact ceiling of the survival share of that state's
/// member count, its staleness rose by at most one in sharing, and its new
/// representative is a value copy of one of the generation's genomes.
pub open spec fn survivor_shape<C: Conf>(
    sp: Species,
    state: Seq<(Seq<Link>, u32, int)>,
    old_nets: Seq<Net>,
    conf: C,
) -> bool {
    exists|t: int|
        0 <= t < state.len() && !state_dead(#[trigger] state[t], conf.spec_staleness_threshold())
            && sp.members@.len() == ((conf.spec_cull_pct() * state[t].2 + (PROB_ONE - 1)) as int)
            / (PROB_ONE as int) && sp.staleness <= state[t].1 + 1 && (exists|g: int|
            0 <= g < old_nets.len() && sp.repr.links@ == (#[trigger] old_nets[g]).links@)
}

/// Every species in the list satisfies `survivor_shape`.
pub open spec fn survivors_shaped<C: Conf>(
    sps: Seq<Species>,
    state: Seq<(Seq<Link>, u32, int)>,
    old_nets: Seq<Net>,
    conf: C,
) -> bool {
    forall|s: int|
        0 <= s < sps.len() ==> survivor_shape(#[trigger] sps[s], state, old_nets, conf)
}

/// The genome descends from one of the given ancestors: each of its gene
/// ids is inherited from that ancestor or was minted in the ledger at or
/// past the given point.
pub open spec fn descends_from(child: Net, old_nets: Seq<Net>, old_len: int) -> bool {
    exists|g: int, w: usize|
        0 <= g < old_nets.len() && old_len <= w && #[trigger] ids_from(
            old_nets[g].links@,
            child.links@,
            w,
        )
}

/// Every genome of the new generation descends from one of the old.
pub open spec fn offspring_descend(new_nets: Seq<Net>, old_nets: Seq<Net>, old_len: int) -> bool {
    forall|c: int|
        0 <= c < new_nets.len() ==> descends_from(#[trigger] new_nets[c], old_nets, old_len)
}


/// The sum of a brood-size sequence.
pub open spec fn sum_seq(s: Seq<int>) -> int
    decreases s.len(),
{
    if s.len() == 0 {
        0
    } else {
        sum_seq(s.drop_last()) + s.last()
    }
}

/// The sum of the species' average fitnesses.
pub open spec fn sum_avg(sps: Seq<Species>) -> int
    decreases sps.len(),
{
    if sps.len() == 0 {
        0
    } else {
        sum_avg(sps.drop_last()) + sps.last().avarage_fitness
    }
}

/// The proportional brood of one species: the floor of its average-fitness
/// share of the population size.
pub open spec fn floor_brood(sp: Species, size: int, total: int) -> int {
    (sp.avarage_fitness * size) / total
}

/// The offspring allocation of one generation: every species breeds the
/// floor of its share, except one species of maximal average fitness,
/// which breeds its share plus the rounding shortfall, so the broods sum
/// to the population size exactly.
pub open spec fn allocation_shape(sps: Seq<Species>, brood: Seq<int>, size: int, total: int) -> bool {
    &&& brood.len() == sps.len()
    &&& sum_seq(brood) == size
    &&& exists|sb: int|
        0 <= sb < sps.len() && (forall|s: int|
            0 <= s < sps.len() && s != sb ==> brood[s] == floor_brood(
                #[trigger] sps[s],
                size,
                total,
            )) && brood[sb] >= floor_brood(sps[sb], size, total) && (forall|s: int|
            0 <= s < sps.len() ==> (#[trigger] sps[s]).avarage_fitness
                <= sps[sb].avarage_fitness)
}

/// Appending a brood adds its size to the sum.
proof fn lemma_sum_seq_push(s: Seq<int>, v: int)
    ensures
        sum_seq(s.push(v)) == sum_seq(s) + v,
{
    assert(s.push(v).drop_last() =~= s);
}

/// Replacing one brood changes the sum by the difference.
proof fn lemma_sum_seq_update(s: Seq<int>, i: int, v: int)
    requires
        0 <= i < s.len(),
    ensures
        sum_seq(s.update(i, v)) == sum_seq(s) - s[i] + v,
    decreases s.len(),
{
    let s2 = s.update(i, v);
    if i == s.len() - 1 {
        assert(s2.drop_last() =~= s.drop_last());
        assert(s2.last() == v);
    } else {
        assert(s2.drop_last() =~= s.drop_last().update(i, v));
        lemma_sum_seq_update(s.drop_last(), i, v);
        assert(s2.last() == s.last());
    }
}

/// Appending a species adds its average to the sum.
proof fn lemma_sum_avg_push(s: Seq<Species>, sp: Species)
    ensures
        sum_avg(s.push(sp)) == sum_avg(s) + sp.avarage_fitness,
{
    assert(s.push(sp).drop_last() =~= s);
}

/// One step of a prefix average sum.
proof fn lemma_sum_avg_take(s: Seq<Species>, i: int)
    requires
        0 <= i < s.len(),
    ensures
        sum_avg(s.take(i + 1)) == sum_avg(s.take(i)) + s[i].avarage_fitness,
{
    assert(s.take(i + 1).drop_last() =~= s.take(i));
    assert(s.take(i + 1).last() == s[i]);
}

/// Every prefix average sum is at most the whole, averages being nonnegative.
proof fn lemma_sum_avg_prefix(s: Seq<Species>, i: int)
    requires
        0 <= i <= s.len(),
    ensures
        sum_avg(s.take(i)) <= sum_avg(s),
    decreases s.len() - i,
{
    if i < s.len() {
        lemma_sum_avg_take(s, i);
        lemma_sum_avg_prefix(s, i + 1);
    } else {
        assert(s.take(i) =~= s);
    }
}

/// Sequence prefixes compose.
proof fn lemma_prefix_trans(a: Seq<Innov>, b: Seq<Innov>, c: Seq<Innov>)
    requires
        a.is_prefix_of(b),
        b.is_prefix_of(c),
    ensures
        a.is_prefix_of(c),
{
    assert(a =~= c.subrange(0, a.len() as int));
}

/// Lifts the well-formedness of genomes, species representatives and bred
/// children over a ledger extension.
proof fn lemma_lift_all(
    nets: Seq<Net>,
    sp: Seq<Species>,
    extra: Seq<Net>,
    i1: Seq<Innov>,
    i2: Seq<Innov>,
)
    requires
        nets_ok(nets, i1),
        species_ok(sp, i1),
        nets_ok(extra, i1),
        i1.is_prefix_of(i2),
    ensures
        nets_ok(nets, i2),
        species_ok(sp, i2),
        nets_ok(extra, i2),
{
    assert forall|i: int| 0 <= i < nets.len() implies net_wf(#[trigger] nets[i], i2) by {
        lemma_wf_ledger_extend(nets[i], i1, i2);
    }
    assert forall|i: int| 0 <= i < sp.len() implies net_wf((#[trigger] sp[i]).repr, i2) by {
        lemma_wf_ledger_extend(sp[i].repr, i1, i2);
    }
    assert forall|i: int| 0 <= i < extra.len() implies net_wf(#[trigger] extra[i], i2) by {
        lemma_wf_ledger_extend(extra[i], i1, i2);
    }
}

impl Pop {
    /// Creates a population of `size` freshly wired genomes sharing one
    /// ledger window, so their initial genes carry identical innovation ids.
    pub fn new<C: Conf>(size: usize, inputs_count: usize, outputs_count: usize, conf: &C) -> (out:
        Pop)
        requires
            1 <= inputs_count,
            1 <= outputs_count,
            inputs_count + 1 + outputs_count < usize::MAX,
            inputs_count * outputs_count + inputs_count + outputs_count + 1 < usize::MAX,
        ensures
            pop_wf(out),
            out.size == size,
            out.nets@.len() == size,
            out.species@.len() == 0,
            forall|i: int|
                0 <= i < out.nets@.len() ==> {
                    &&& (#[trigger] out.nets@[i]).inputs_count == inputs_count
                    &&& out.nets@[i].outputs_count == outputs_count
                    &&& out.nets@[i].fitness == 0
                    &&& out.nets@[i].nodes@.len() == inputs_count + 1 + outputs_count
                    &&& out.nets@[i].links@.len() == (inputs_count + 1) * outputs_count
                },
            out.innovs@.len() <= (inputs_count + 1) * outputs_count,
            forall|i: int|
                0 <= i < out.innovs@.len() ==> (#[trigger] out.innovs@[i]).from <= inputs_count
                    && inputs_count + 1 <= out.innovs@[i].to < inputs_count + 1 + outputs_count,
            forall|k: int, jj: int, t: int|
                0 <= k < out.nets@.len() && 0 <= jj <= inputs_count && inputs_count + 1 <= t
                    < inputs_count + 1 + outputs_count ==> #[trigger] has_pair(
                    out.nets@[k].links@,
                    out.innovs@,
                    jj,
                    t,
                ),
    {
        let mut innovs: Vec<Innov> = Vec::new();
        let mut nets: Vec<Net> = Vec::new();
        let mut i: usize = 0;
        while i < size
            invariant
                i <= size,
                nets@.len() == i,
                ledger_wf(innovs@),
                nets_ok(nets@, innovs@),
                forall|k: int|
                    0 <= k < nets@.len() ==> {
                        &&& (#[trigger] nets@[k]).inputs_count == inputs_count
                        &&& nets@[k].outputs_count == outputs_count
                        &&& nets@[k].fitness == 0
                        &&& nets@[k].nodes@.len() == inputs_count + 1 + outputs_count
                        &&& nets@[k].links@.len() == (inputs_count + 1) * outputs_count
                    },
                1 <= inputs_count,
                1 <= outputs_count,
                inputs_count + 1 + outputs_count < usize::MAX,
                inputs_count * outputs_count + inputs_count + outputs_count + 1 < usize::MAX,
                i == 0 ==> innovs@.len() == 0,
                innovs@.len() <= (inputs_count + 1) * outputs_count,
                forall|e: int|
                    0 <= e < innovs@.len() ==> (#[trigger] innovs@[e]).from <= inputs_count
                        && inputs_count + 1 <= innovs@[e].to < inputs_count + 1 + outputs_count,
                forall|k: int, jj: int, t: int|
                    0 <= k < nets@.len() && 0 <= jj <= inputs_count && inputs_count + 1 <= t
                        < inputs_count + 1 + outputs_count ==> #[trigger] has_pair(
                        nets@[k].links@,
                        innovs@,
                        jj,
                        t,
                    ),
                i >= 1 ==> forall|jj: usize, t: usize|
                    jj <= inputs_count && inputs_count + 1 <= t < inputs_count + 1 + outputs_count
                        ==> #[trigger] window_has_pair(innovs@, 0int, jj, t),
            decreases size - i,
        {
            let ghost pre_innovs = innovs@;
            let net = Net::new(inputs_count, outputs_count, &mut innovs, 0, conf);
            proof {
                if i >= 1 {
                    assert(innovs@ == pre_innovs);
                }
                assert forall|k: int| 0 <= k < nets@.len() implies net_wf(
                    #[trigger] nets@[k],
                    innovs@,
                ) by {
                    lemma_wf_ledger_extend(nets@[k], pre_innovs, innovs@);
                }
            }
            nets.push(net);
            proof {
                // every pair of the full wiring grid now sits in the ledger window
                assert forall|jj: usize, t: usize|
                    jj <= inputs_count && inputs_count + 1 <= t < inputs_count + 1
                        + outputs_count implies #[trigger] window_has_pair(
                    innovs@,
                    0int,
                    jj,
                    t,
                ) by {
                    assert(has_pair(net.links@, innovs@, jj as int, t as int));
                    let k = choose|k: int|
                        0 <= k < net.links@.len() && #[trigger] link_from(net.links@, innovs@, k)
                            == jj as int && link_to(net.links@, innovs@, k) == t as int;
                    assert(net.links@[k].innov < innovs@.len());
                    assert(innovs@[net.links@[k].innov as int].from == jj);
                    assert(innovs@[net.links@[k].innov as int].to == t);
                }
            }
            i += 1;
        }
        Pop { size, nets, species: Vec::new(), innovs }
    }

    /// Runs one full generation transition: species member lists are
    /// cleared and every genome is offered to the species in order
    /// (first fit), seeding a new species when none accepts; species that
    /// are empty or stale go extinct, the rest are culled, share fitness
    /// and re-pick a representative; offspring slots are allocated in
    /// proportion to species average fitness; and the species breed a full
    /// replacement generation, the best species filling any shortfall.
    /// Fails with an extinction error exactly when no species survives
    /// maintenance; the population then keeps its size but does not breed.
    pub fn next_gen<C: Conf>(&mut self, conf: &C) -> (r: Result<(), ExtinctionError>)
        requires
            pop_wf(*old(self)),
            1 <= old(self).size <= SIZE_CAP,
            old(self).species@.len() <= SIZE_CAP,
            forall|i: int|
                0 <= i < old(self).nets@.len() ==> (#[trigger] old(self).nets@[i]).fitness
                    <= FIT_CAP,
        ensures
            pop_wf(*final(self)),
            final(self).size == old(self).size,
            final(self).nets@.len() == old(self).size,
            old(self).innovs@.is_prefix_of(final(self).innovs@),
            r is Err ==> final(self).species@.len() == 0,
            r is Ok ==> final(self).species@.len() >= 1,
            r is Err <==> all_extinct(
                assign_all(cleared_states(old(self).species@), old(self).nets@, *conf),
                conf.spec_staleness_threshold(),
            ),
            final(self).species@.len() == alive_count(
                assign_all(cleared_states(old(self).species@), old(self).nets@, *conf),
                conf.spec_staleness_threshold(),
            ),
            forall|s: int|
                0 <= s < final(self).species@.len() ==> {
                    &&& (#[trigger] final(self).species@[s]).members@.len() >= 1
                    &&& final(self).species@[s].members_shared_fitness@.len()
                        == final(self).species@[s].members@.len()
                    &&& final(self).species@[s].avarage_fitness == sum_fitness(
                        final(self).species@[s].members_shared_fitness@,
                    )
                    &&& forall|m: int|
                        0 <= m < final(self).species@[s].members@.len()
                            ==> #[trigger] final(self).species@[s].members@[m] < old(self).size
                },
            survivors_shaped(
                final(self).species@,
                assign_all(cleared_states(old(self).species@), old(self).nets@, *conf),
                old(self).nets@,
                *conf,
            ),
            r is Ok ==> offspring_descend(
                final(self).nets@,
                old(self).nets@,
                old(self).innovs@.len() as int,
            ),
            r is Ok && sum_avg(final(self).species@) > 0 ==> exists|brood: Seq<int>|
                allocation_shape(
                    final(self).species@,
                    brood,
                    old(self).size as int,
                    sum_avg(final(self).species@),
                ),
    {
        let size = self.size;
        let ghost target = assign_all(
            cleared_states(old(self).species@),
            old(self).nets@,
            *conf,
        );
        let ghost innovs0 = self.innovs@;
        proof {
            assert(self.innovs@.subrange(0, innovs0.len() as int) =~= innovs0);
        }
        // Assigning: clear members, then offer each genome to the species
        // in order, seeding a new species when none accepts.
        let mut species: Vec<Species> = Vec::new();
        while self.species.len() > 0
            invariant
                ledger_wf(self.innovs@),
                self.innovs@ == innovs0,
                self.nets@ == old(self).nets@,
                self.size == old(self).size,
                size == self.size,
                self.nets@.len() == size,
                nets_ok(self.nets@, self.innovs@),
                forall|i: int|
                    0 <= i < self.nets@.len() ==> (#[trigger] self.nets@[i]).fitness <= FIT_CAP,
                species_ok(self.species@, self.innovs@),
                species_ok(species@, self.innovs@),
                species@.len() + self.species@.len() == old(self).species@.len(),
                old(self).species@.len() <= SIZE_CAP,
                forall|s: int| 0 <= s < species@.len() ==> (#[trigger] species@[s]).members@.len() == 0,
                forall|s: int|
                    0 <= s < self.species@.len() ==> #[trigger] self.species@[s] == old(
                        self,
                    ).species@[species@.len() + s],
                forall|s: int|
                    0 <= s < species@.len() ==> (#[trigger] species@[s]).repr == old(
                        self,
                    ).species@[s].repr && species@[s].staleness == old(self).species@[s].staleness,
            decreases self.species@.len(),
        {
            let ghost pre_rem = self.species@;
            let mut sp = self.species.remove(0);
            proof {
                assert forall|s: int| 0 <= s < self.species@.len() implies #[trigger] self.species@[s]
                    == pre_rem[s + 1] by {}
            }
            sp.clear();
            species.push(sp);
        }
        proof {
            assert(states_of(species@) =~= cleared_states(old(self).species@));
            assert(assign_all(states_of(species@), self.nets@, *conf) == target);
        }
        let mut nets: Vec<Net> = Vec::new();
        while self.nets.len() > 0
            invariant
                ledger_wf(self.innovs@),
                self.innovs@ == innovs0,
                nets@.len() + self.nets@.len() == size,
                size == self.size,
                self.size == old(self).size,
                self.species@.len() == 0,
                forall|i: int|
                    0 <= i < self.nets@.len() ==> #[trigger] self.nets@[i] == old(
                        self,
                    ).nets@[nets@.len() + i],
                forall|i: int|
                    0 <= i < nets@.len() ==> (#[trigger] nets@[i]).links@ == old(
                        self,
                    ).nets@[i].links@,
                nets_ok(nets@, self.innovs@),
                nets_ok(self.nets@, self.innovs@),
                species_ok(species@, self.innovs@),
                species@.len() <= SIZE_CAP + nets@.len(),
                forall|i: int|
                    0 <= i < self.nets@.len() ==> (#[trigger] self.nets@[i]).fitness <= FIT_CAP,
                forall|i: int| 0 <= i < nets@.len() ==> (#[trigger] nets@[i]).fitness <= FIT_CAP,
                forall|s: int, m: int|
                    0 <= s < species@.len() && 0 <= m < (#[trigger] species@[s]).members@.len()
                        ==> (#[trigger] species@[s].members@[m]) < nets@.len(),
                forall|s: int|
                    0 <= s < species@.len() ==> (#[trigger] species@[s]).members@.len()
                        <= nets@.len(),
                assign_all(states_of(species@), self.nets@, *conf) == target,
            decreases self.nets@.len(),
        {
            let ghost rem_nets = self.nets@;
            let ghost pre_states = states_of(species@);
            let ghost assigned_so_far = nets@.len() as int;
            let mut net = self.nets.remove(0);
            proof {
                assert forall|i: int| 0 <= i < self.nets@.len() implies #[trigger] self.nets@[i]
                    == old(self).nets@[assigned_so_far + 1 + i] by {
                    assert(self.nets@[i] == rem_nets[i + 1]);
                }
                assert(rem_nets[0] == old(self).nets@[assigned_so_far]);
            }
            net.in_species = false;
            let ghost links0 = net.links@;
            proof {
                assert(self.nets@ =~= rem_nets.drop_first());
                assert(rem_nets[0].links@ == links0);
                assert(assign_all(pre_states, rem_nets, *conf) == assign_all(
                    offer_one(pre_states, links0, *conf),
                    rem_nets.drop_first(),
                    *conf,
                ));
            }
            let net_index = nets.len();
            let mut rest: Vec<Species> = Vec::new();
            proof {
                assert(states_of(rest@) =~= Seq::<(Seq<Link>, u32, int)>::empty());
                assert(Seq::<(Seq<Link>, u32, int)>::empty() + offer_one(
                    states_of(species@),
                    links0,
                    *conf,
                ) =~= offer_one(states_of(species@), links0, *conf));
            }
            while species.len() > 0
                invariant
                    ledger_wf(self.innovs@),
                    self.innovs@ == innovs0,
                    net_wf(net, self.innovs@),
                    net.fitness <= FIT_CAP,
                    net_index == nets@.len(),
                    species_ok(species@, self.innovs@),
                    species_ok(rest@, self.innovs@),
                    rest@.len() + species@.len() <= SIZE_CAP + nets@.len(),
                    forall|s: int, m: int|
                        0 <= s < species@.len() && 0 <= m < (#[trigger] species@[s]).members@.len()
                            ==> (#[trigger] species@[s].members@[m]) < nets@.len(),
                    forall|s: int|
                        0 <= s < species@.len() ==> (#[trigger] species@[s]).members@.len()
                            <= nets@.len(),
                    forall|s: int, m: int|
                        0 <= s < rest@.len() && 0 <= m < (#[trigger] rest@[s]).members@.len() ==> (
                        #[trigger] rest@[s].members@[m]) < nets@.len() + 1,
                    forall|s: int|
                        0 <= s < rest@.len() ==> (#[trigger] rest@[s]).members@.len() <= nets@.len()
                            + 1,
                    net.links@ == links0,
                    !net.in_species ==> offer_one(pre_states, links0, *conf) == states_of(rest@)
                        + offer_one(states_of(species@), links0, *conf),
                    net.in_species ==> offer_one(pre_states, links0, *conf) == states_of(rest@)
                        + states_of(species@),
                decreases species@.len(),
            {
                let ghost cur_species = species@;
                let ghost joined_before = net.in_species;
                let mut sp = species.remove(0);
                let ghost s0 = sp_state(sp);
                proof {
                    assert(net_wf(sp.repr, self.innovs@));
                    assert(species@ =~= cur_species.drop_first());
                    assert(states_of(cur_species)[0] == s0);
                    assert(states_of(cur_species).drop_first() =~= states_of(species@));
                    assert(states_of(cur_species) =~= seq![s0] + states_of(species@));
                }
                let ghost rest0 = rest@;
                sp.add_member(&mut net, net_index, conf);
                rest.push(sp);
                proof {
                    assert(states_of(rest@) =~= states_of(rest0).push(sp_state(sp)));
                    if joined_before {
                        assert(sp_state(sp) == s0);
                        assert(states_of(rest0) + (seq![s0] + states_of(species@)) =~= states_of(
                            rest@,
                        ) + states_of(species@));
                    } else {
                        let joins = joins_state(links0, s0, *conf);
                        assert(net.in_species == joins);
                        if joins {
                            assert(sp_state(sp) == (s0.0, s0.1, s0.2 + 1));
                            assert(offer_one(states_of(cur_species), links0, *conf) =~= seq![
                                sp_state(sp),
                            ] + states_of(species@));
                            assert(states_of(rest0) + (seq![sp_state(sp)] + states_of(species@))
                                =~= states_of(rest@) + states_of(species@));
                        } else {
                            assert(sp_state(sp) == s0);
                            assert(offer_one(states_of(cur_species), links0, *conf) == seq![s0]
                                + offer_one(states_of(species@), links0, *conf));
                            assert(states_of(rest0) + (seq![s0] + offer_one(
                                states_of(species@),
                                links0,
                                *conf,
                            )) =~= states_of(rest@) + offer_one(states_of(species@), links0, *conf));
                        }
                    }
                }
            }
            proof {
                assert(states_of(species@) =~= Seq::<(Seq<Link>, u32, int)>::empty());
            }
            species = rest;
            if !net.in_species {
                let seeded = Species::new(&net);
                proof {
                    lemma_equiv_wf(seeded.repr, net, self.innovs@);
                    assert(offer_one(Seq::<(Seq<Link>, u32, int)>::empty(), links0, *conf)
                        =~= seq![(links0, 0u32, 0int)]);
                    assert(sp_state(seeded) == (links0, 0u32, 0int));
                }
                let ghost pre_seed = species@;
                species.push(seeded);
                proof {
                    assert(states_of(species@) =~= states_of(pre_seed).push(
                        (links0, 0u32, 0int),
                    ));
                    assert(states_of(pre_seed) + seq![(links0, 0u32, 0int)] =~= states_of(
                        species@,
                    ));
                    assert(states_of(species@) =~= offer_one(pre_states, links0, *conf));
                }
            } else {
                proof {
                    assert(states_of(species@) + Seq::<(Seq<Link>, u32, int)>::empty()
                        =~= states_of(species@));
                    assert(states_of(species@) =~= offer_one(pre_states, links0, *conf));
                }
            }
            proof {
                assert(assign_all(states_of(species@), self.nets@, *conf) == target);
                assert(net.links@ == old(self).nets@[assigned_so_far].links@);
            }
            nets.push(net);
        }
        proof {
            assert(states_of(species@) == target);
        }
        self.nets = nets;
        // Maintaining: extinction for empty or stale species; the rest are
        // culled, share fitness and re-pick their representative.
        let threshold = conf.get_staleness_threshold();
        let ghost s_all = states_of(species@);
        let ghost mut idx: int = 0;
        let mut kept: Vec<Species> = Vec::new();
        let mut total_avg: u128 = 0;
        let mut best_index: usize = 0;
        let mut best_avg: u64 = 0;
        while species.len() > 0
            invariant
                ledger_wf(self.innovs@),
                self.innovs@ == innovs0,
                size == self.size,
                self.size == old(self).size,
                self.species@.len() == 0,
                self.nets@.len() == size,
                nets_ok(self.nets@, self.innovs@),
                forall|i: int|
                    0 <= i < self.nets@.len() ==> (#[trigger] self.nets@[i]).fitness <= FIT_CAP,
                size <= SIZE_CAP,
                species_ok(species@, self.innovs@),
                species_ok(kept@, self.innovs@),
                forall|s: int, m: int|
                    0 <= s < species@.len() && 0 <= m < (#[trigger] species@[s]).members@.len()
                        ==> (#[trigger] species@[s].members@[m]) < self.nets@.len(),
                forall|s: int|
                    0 <= s < species@.len() ==> (#[trigger] species@[s]).members@.len()
                        <= self.nets@.len(),
                kept@.len() + species@.len() <= SIZE_CAP + SIZE_CAP,
                forall|s: int|
                    0 <= s < kept@.len() ==> {
                        &&& (#[trigger] kept@[s]).members@.len() >= 1
                        &&& kept@[s].members_shared_fitness@.len() == kept@[s].members@.len()
                        &&& kept@[s].avarage_fitness == sum_fitness(
                            kept@[s].members_shared_fitness@,
                        )
                        &&& kept@[s].avarage_fitness <= SIZE_CAP * FIT_CAP
                        &&& forall|m: int|
                            0 <= m < kept@[s].members@.len() ==> #[trigger] kept@[s].members@[m]
                                < self.nets@.len()
                    },
                total_avg <= kept@.len() * ((SIZE_CAP * FIT_CAP) as int),
                total_avg as int == sum_avg(kept@),
                forall|s: int|
                    0 <= s < kept@.len() ==> (#[trigger] kept@[s]).avarage_fitness as int
                        <= total_avg as int,
                kept@.len() == 0 ==> best_index == 0,
                kept@.len() == 0 ==> best_avg == 0,
                kept@.len() >= 1 ==> best_index < kept@.len() && best_avg == kept@[best_index as int].avarage_fitness,
                forall|s: int|
                    0 <= s < kept@.len() ==> (#[trigger] kept@[s]).avarage_fitness <= best_avg,
                best_avg <= (SIZE_CAP * FIT_CAP) as u64,
                threshold == conf.spec_staleness_threshold(),
                old(self).nets@.len() == size,
                forall|i: int|
                    0 <= i < self.nets@.len() ==> (#[trigger] self.nets@[i]).links@ == old(
                        self,
                    ).nets@[i].links@,
                forall|s: int|
                    0 <= s < kept@.len() ==> survivor_shape(
                        #[trigger] kept@[s],
                        s_all,
                        old(self).nets@,
                        *conf,
                    ),
                0 <= idx,
                idx + species@.len() == s_all.len(),
                forall|s: int|
                    0 <= s < species@.len() ==> sp_state(#[trigger] species@[s]) == s_all[idx + s],
                (kept@.len() == 0) <==> (forall|s: int|
                    0 <= s < idx ==> state_dead(#[trigger] s_all[s], conf.spec_staleness_threshold())),
                kept@.len() == alive_count(s_all.take(idx), conf.spec_staleness_threshold()),
            decreases species@.len(),
        {
            let ghost cur0 = species@;
            let ghost kept_was_empty = kept@.len() == 0;
            let mut sp = species.remove(0);
            proof {
                assert(sp_state(sp) == s_all[idx]);
                assert forall|s: int| 0 <= s < species@.len() implies sp_state(
                    #[trigger] species@[s],
                ) == s_all[idx + 1 + s] by {
                    assert(species@[s] == cur0[s + 1]);
                }
                idx = idx + 1;
            }
            if sp.members.len() == 0 || threshold <= sp.staleness {
                proof {
                    assert(state_dead(s_all[idx - 1], conf.spec_staleness_threshold()));
                    assert(s_all.take(idx).drop_last() =~= s_all.take(idx - 1));
                    assert(s_all.take(idx).last() == s_all[idx - 1]);
                    if kept_was_empty {
                        assert forall|s: int| 0 <= s < idx implies state_dead(
                            #[trigger] s_all[s],
                            conf.spec_staleness_threshold(),
                        ) by {}
                    }
                }
                continue ;
            }
            proof {
                assert(!state_dead(s_all[idx - 1], conf.spec_staleness_threshold()));
                assert(s_all.take(idx).drop_last() =~= s_all.take(idx - 1));
                assert(s_all.take(idx).last() == s_all[idx - 1]);
            }
            let ghost pre_members = sp.members@;
            sp.cull(&self.nets, conf);
            proof {
                assert forall|m: int| 0 <= m < sp.members@.len() implies #[trigger] sp.members@[m]
                    < self.nets@.len() && self.nets@[sp.members@[m] as int].fitness <= FIT_CAP by {
                    let x = sp.members@[m];
                    assert(pre_members.contains(x));
                    let j = choose|j: int| 0 <= j < pre_members.len() && pre_members[j] == x;
                    assert(pre_members[j] < self.nets@.len());
                    assert(self.nets@[pre_members[j] as int].fitness <= FIT_CAP);
                }
                assert(sp.members@.len() <= SIZE_CAP);
            }
            sp.fitness_sharing(&self.nets);
            sp.choose_random_repr(&self.nets);
            proof {
                let i = choose|i: int|
                    0 <= i < sp.members@.len() && net_equiv(
                        sp.repr,
                        self.nets@[#[trigger] sp.members@[i] as int],
                    );
                lemma_equiv_wf(sp.repr, self.nets@[sp.members@[i] as int], self.innovs@);
                assert(sp.repr.links@ == old(self).nets@[sp.members@[i] as int].links@);
                assert(!state_dead(s_all[idx - 1], conf.spec_staleness_threshold()));
                assert(survivor_shape(sp, s_all, old(self).nets@, *conf));
            }
            proof {
                assert((kept@.len() + 1) * ((SIZE_CAP * FIT_CAP) as int) == kept@.len() * ((
                SIZE_CAP * FIT_CAP) as int) + (SIZE_CAP * FIT_CAP) as int) by (nonlinear_arith);
                assert(kept@.len() * ((SIZE_CAP * FIT_CAP) as int) <= (2 * SIZE_CAP as int) * ((
                SIZE_CAP * FIT_CAP) as int)) by (nonlinear_arith)
                    requires
                        0 <= kept@.len() <= 2 * SIZE_CAP as int,
                ;
                assert(((2 * SIZE_CAP as int) * ((SIZE_CAP * FIT_CAP) as int) + ((SIZE_CAP
                    * FIT_CAP) as int)) < u128::MAX as int) by (nonlinear_arith);
                assert(sp.avarage_fitness <= SIZE_CAP * FIT_CAP);
            }
            total_avg = total_avg + sp.avarage_fitness as u128;
            if best_avg < sp.avarage_fitness {
                best_index = kept.len();
                best_avg = sp.avarage_fitness;
            }
            proof {
                lemma_sum_avg_push(kept@, sp);
            }
            kept.push(sp);
            proof {
                assert(!state_dead(s_all[idx - 1], conf.spec_staleness_threshold()));
                assert(!(forall|s: int|
                    0 <= s < idx ==> state_dead(
                        #[trigger] s_all[s],
                        conf.spec_staleness_threshold(),
                    )));
            }
        }
        proof {
            assert(idx == s_all.len());
            assert(s_all.take(idx) =~= s_all);
            if kept@.len() == 0 {
                assert(all_extinct(s_all, conf.spec_staleness_threshold()));
            } else {
                assert(!all_extinct(s_all, conf.spec_staleness_threshold()));
            }
        }
        if kept.len() == 0 {
            self.species = kept;
            return Err(ExtinctionError);
        }
        self.species = kept;
        let ghost kept0 = self.species@;
        proof {
            assert(survivors_shaped(kept0, s_all, old(self).nets@, *conf));
        }
        // Allocating and reproducing: proportional offspring counts, with
        // the best species breeding any shortfall.
        let old_innovs_count = self.innovs.len();
        proof {
            assert(self.innovs@.subrange(0, innovs0.len() as int) =~= innovs0);
        }
        let mut next_nets: Vec<Net> = Vec::new();
        let ghost mut brood: Seq<int> = Seq::empty();
        let mut s: usize = 0;
        while s < self.species.len()
            invariant
                ledger_wf(self.innovs@),
                total_avg as int == sum_avg(kept0),
                brood.len() == s as int,
                sum_seq(brood) == next_nets@.len() as int,
                forall|s2: int|
                    0 <= s2 < s as int ==> #[trigger] brood[s2] == (if total_avg > 0 {
                        floor_brood(kept0[s2], size as int, total_avg as int)
                    } else {
                        0int
                    }),
                total_avg > 0 ==> next_nets@.len() * (total_avg as int) <= sum_avg(
                    kept0.take(s as int),
                ) * (size as int),
                kept0.len() >= 1 ==> best_index < kept0.len() && best_avg == kept0[best_index as int].avarage_fitness,
                forall|s2: int|
                    0 <= s2 < kept0.len() ==> (#[trigger] kept0[s2]).avarage_fitness <= best_avg,
                innovs0.is_prefix_of(self.innovs@),
                old_innovs_count <= self.innovs@.len(),
                old(self).innovs@.len() <= old_innovs_count,
                size == self.size,
                size <= SIZE_CAP,
                self.size == old(self).size,
                self.species@ == kept0,
                self.nets@.len() == size,
                old(self).nets@.len() == size,
                forall|i: int|
                    0 <= i < self.nets@.len() ==> (#[trigger] self.nets@[i]).links@ == old(
                        self,
                    ).nets@[i].links@,
                forall|c: int|
                    0 <= c < next_nets@.len() ==> descends_from(
                        #[trigger] next_nets@[c],
                        old(self).nets@,
                        old(self).innovs@.len() as int,
                    ),
                nets_ok(self.nets@, self.innovs@),
                species_ok(self.species@, self.innovs@),
                s <= self.species@.len(),
                self.species@.len() >= 1,
                best_index < self.species@.len(),
                forall|ss: int|
                    0 <= ss < self.species@.len() ==> {
                        &&& (#[trigger] self.species@[ss]).members@.len() >= 1
                        &&& self.species@[ss].members_shared_fitness@.len()
                            == self.species@[ss].members@.len()
                        &&& self.species@[ss].avarage_fitness == sum_fitness(
                            self.species@[ss].members_shared_fitness@,
                        )
                        &&& self.species@[ss].avarage_fitness as int <= total_avg as int
                        &&& self.species@[ss].avarage_fitness <= (SIZE_CAP * FIT_CAP) as u64
                        &&& forall|m: int|
                            0 <= m < self.species@[ss].members@.len()
                                ==> #[trigger] self.species@[ss].members@[m] < self.nets@.len()
                    },
                next_nets@.len() <= size,
                nets_ok(next_nets@, self.innovs@),
            decreases self.species@.len() - s,
        {
            let baby_count: usize = if total_avg > 0 {
                let avg = self.species[s].avarage_fitness;
                proof {
                    assert((avg as int) * (size as int) <= ((SIZE_CAP * FIT_CAP) as int) * (
                    SIZE_CAP as int)) by (nonlinear_arith)
                        requires
                            0 <= avg as int <= (SIZE_CAP * FIT_CAP) as int,
                            0 <= size as int <= SIZE_CAP as int,
                    ;
                    assert(((SIZE_CAP * FIT_CAP) as int) * (SIZE_CAP as int) < u128::MAX as int)
                        by (nonlinear_arith);
                }
                let b = (avg as u128) * (size as u128) / total_avg;
                proof {
                    assert(b as int <= size as int) by (nonlinear_arith)
                        requires
                            b as int == (avg as int) * (size as int) / (total_avg as int),
                            total_avg as int > 0,
                            0 <= avg as int <= total_avg as int,
                            0 <= size as int,
                    ;
                }
                b as usize
            } else {
                0
            };
            let ghost next0 = next_nets@.len() as int;
            proof {
                lemma_sum_avg_take(kept0, s as int);
                lemma_sum_avg_prefix(kept0, s as int + 1);
                if total_avg > 0 {
                    assert((baby_count as int) * (total_avg as int) <= (
                    self.species@[s as int].avarage_fitness as int) * (size as int))
                        by (nonlinear_arith)
                        requires
                            baby_count as int == ((self.species@[s as int].avarage_fitness as int)
                                * (size as int)) / (total_avg as int),
                            total_avg as int > 0,
                            0 <= self.species@[s as int].avarage_fitness as int,
                            0 <= size as int,
                    ;
                    assert((next0 + baby_count) * (total_avg as int) == next0 * (total_avg as int)
                        + (baby_count as int) * (total_avg as int)) by (nonlinear_arith);
                    assert(sum_avg(kept0.take(s as int + 1)) * (size as int) == sum_avg(
                        kept0.take(s as int),
                    ) * (size as int) + (kept0[s as int].avarage_fitness as int) * (size as int))
                        by (nonlinear_arith)
                        requires
                            sum_avg(kept0.take(s as int + 1)) == sum_avg(kept0.take(s as int))
                                + kept0[s as int].avarage_fitness,
                    ;
                    assert((next0 + baby_count) * (total_avg as int) <= sum_avg(
                        kept0.take(s as int + 1),
                    ) * (size as int));
                    assert(sum_avg(kept0.take(s as int + 1)) * (size as int) <= (
                    total_avg as int) * (size as int)) by (nonlinear_arith)
                        requires
                            sum_avg(kept0.take(s as int + 1)) <= total_avg as int,
                            0 <= size as int,
                    ;
                    assert(next0 + baby_count <= size as int) by (nonlinear_arith)
                        requires
                            (next0 + baby_count) * (total_avg as int) <= (total_avg as int) * (
                            size as int),
                            total_avg as int > 0,
                    ;
                }
            }
            let mut b: usize = 0;
            while b < baby_count
                invariant
                    ledger_wf(self.innovs@),
                    next_nets@.len() as int == next0 + b,
                    baby_count > 0 ==> next0 + baby_count <= size as int,
                    innovs0.is_prefix_of(self.innovs@),
                    old_innovs_count <= self.innovs@.len(),
                    old(self).innovs@.len() <= old_innovs_count,
                    size == self.size,
                    size <= SIZE_CAP,
                    self.size == old(self).size,
                    self.species@ == kept0,
                    self.nets@.len() == size,
                    old(self).nets@.len() == size,
                    forall|i: int|
                        0 <= i < self.nets@.len() ==> (#[trigger] self.nets@[i]).links@ == old(
                            self,
                        ).nets@[i].links@,
                    forall|c: int|
                        0 <= c < next_nets@.len() ==> descends_from(
                            #[trigger] next_nets@[c],
                            old(self).nets@,
                            old(self).innovs@.len() as int,
                        ),
                    nets_ok(self.nets@, self.innovs@),
                    species_ok(self.species@, self.innovs@),
                    s < self.species@.len(),
                    forall|ss: int|
                        0 <= ss < self.species@.len() ==> {
                            &&& (#[trigger] self.species@[ss]).members@.len() >= 1
                            &&& self.species@[ss].members_shared_fitness@.len()
                                == self.species@[ss].members@.len()
                            &&& self.species@[ss].avarage_fitness == sum_fitness(
                                self.species@[ss].members_shared_fitness@,
                            )
                            &&& self.species@[ss].avarage_fitness as int <= total_avg as int
                            &&& self.species@[ss].avarage_fitness <= (SIZE_CAP * FIT_CAP) as u64
                            &&& forall|m: int|
                                0 <= m < self.species@[ss].members@.len()
                                    ==> #[trigger] self.species@[ss].members@[m]
                                    < self.nets@.len()
                        },
                    next_nets@.len() <= size,
                    nets_ok(next_nets@, self.innovs@),
                    b <= baby_count,
                decreases baby_count - b,
            {
                if next_nets.len() < size {
                    let ghost pre = self.innovs@;
                    let child = self.species[s].make_child(
                        &mut self.innovs,
                        old_innovs_count,
                        &self.nets,
                        conf,
                    );
                    proof {
                        lemma_lift_all(self.nets@, self.species@, next_nets@, pre, self.innovs@);
                        lemma_prefix_trans(innovs0, pre, self.innovs@);
                        let i = choose|i: int|
                            0 <= i < self.species@[s as int].members@.len() && child.inputs_count
                                == self.nets@[(#[trigger] self.species@[s as int].members@[i]) as int].inputs_count
                                && child.outputs_count == self.nets@[(self.species@[s as int].members@[i]) as int].outputs_count
                                && child.fitness == self.nets@[(self.species@[s as int].members@[i]) as int].fitness
                                && ids_from(
                                self.nets@[(self.species@[s as int].members@[i]) as int].links@,
                                child.links@,
                                old_innovs_count,
                            );
                        let g = self.species@[s as int].members@[i] as int;
                        assert(self.nets@[g].links@ == old(self).nets@[g].links@);
                        assert(ids_from(old(self).nets@[g].links@, child.links@, old_innovs_count));
                        assert(old(self).innovs@.len() <= old_innovs_count);
                        assert(descends_from(child, old(self).nets@, old(self).innovs@.len() as int));
                    }
                    next_nets.push(child);
                }
                b += 1;
            }
            proof {
                let pre_brood = brood;
                lemma_sum_seq_push(pre_brood, baby_count as int);
                brood = pre_brood.push(baby_count as int);
                assert(sum_seq(brood) == sum_seq(pre_brood) + baby_count);
                if total_avg > 0 {
                    assert(next_nets@.len() * (total_avg as int) <= sum_avg(
                        kept0.take(s as int + 1),
                    ) * (size as int));
                }
            }
            s += 1;
        }
        while next_nets.len() < size
            invariant
                ledger_wf(self.innovs@),
                total_avg as int == sum_avg(kept0),
                brood.len() == kept0.len(),
                sum_seq(brood) <= next_nets@.len() as int,
                sum_seq(brood) <= size as int,
                forall|s2: int|
                    0 <= s2 < kept0.len() ==> #[trigger] brood[s2] == (if total_avg > 0 {
                        floor_brood(kept0[s2], size as int, total_avg as int)
                    } else {
                        0int
                    }),
                kept0.len() >= 1 ==> best_index < kept0.len() && best_avg == kept0[best_index as int].avarage_fitness,
                forall|s2: int|
                    0 <= s2 < kept0.len() ==> (#[trigger] kept0[s2]).avarage_fitness <= best_avg,
                innovs0.is_prefix_of(self.innovs@),
                old_innovs_count <= self.innovs@.len(),
                old(self).innovs@.len() <= old_innovs_count,
                size == self.size,
                size <= SIZE_CAP,
                self.size == old(self).size,
                self.species@ == kept0,
                self.nets@.len() == size,
                old(self).nets@.len() == size,
                forall|i: int|
                    0 <= i < self.nets@.len() ==> (#[trigger] self.nets@[i]).links@ == old(
                        self,
                    ).nets@[i].links@,
                forall|c: int|
                    0 <= c < next_nets@.len() ==> descends_from(
                        #[trigger] next_nets@[c],
                        old(self).nets@,
                        old(self).innovs@.len() as int,
                    ),
                nets_ok(self.nets@, self.innovs@),
                species_ok(self.species@, self.innovs@),
                self.species@.len() >= 1,
                best_index < self.species@.len(),
                forall|ss: int|
                    0 <= ss < self.species@.len() ==> {
                        &&& (#[trigger] self.species@[ss]).members@.len() >= 1
                        &&& self.species@[ss].members_shared_fitness@.len()
                            == self.species@[ss].members@.len()
                        &&& self.species@[ss].avarage_fitness == sum_fitness(
                            self.species@[ss].members_shared_fitness@,
                        )
                        &&& self.species@[ss].avarage_fitness as int <= total_avg as int
                        &&& self.species@[ss].avarage_fitness <= (SIZE_CAP * FIT_CAP) as u64
                        &&& forall|m: int|
                            0 <= m < self.species@[ss].members@.len()
                                ==> #[trigger] self.species@[ss].members@[m] < self.nets@.len()
                    },
                next_nets@.len() <= size,
                nets_ok(next_nets@, self.innovs@),
            decreases size - next_nets@.len(),
        {
            let ghost pre = self.innovs@;
            let child = self.species[best_index].make_child(
                &mut self.innovs,
                old_innovs_count,
                &self.nets,
                conf,
            );
            proof {
                lemma_lift_all(self.nets@, self.species@, next_nets@, pre, self.innovs@);
                lemma_prefix_trans(innovs0, pre, self.innovs@);
                let i = choose|i: int|
                    0 <= i < self.species@[best_index as int].members@.len() && child.inputs_count
                        == self.nets@[(#[trigger] self.species@[best_index as int].members@[i]) as int].inputs_count
                        && child.outputs_count == self.nets@[(self.species@[best_index as int].members@[i]) as int].outputs_count
                        && child.fitness == self.nets@[(self.species@[best_index as int].members@[i]) as int].fitness
                        && ids_from(
                        self.nets@[(self.species@[best_index as int].members@[i]) as int].links@,
                        child.links@,
                        old_innovs_count,
                    );
                let g = self.species@[best_index as int].members@[i] as int;
                assert(self.nets@[g].links@ == old(self).nets@[g].links@);
                assert(ids_from(old(self).nets@[g].links@, child.links@, old_innovs_count));
                assert(old(self).innovs@.len() <= old_innovs_count);
                assert(descends_from(child, old(self).nets@, old(self).innovs@.len() as int));
            }
            next_nets.push(child);
        }
        proof {
            if total_avg > 0 {
                let extra = size as int - sum_seq(brood);
                assert(extra >= 0);
                lemma_sum_seq_update(brood, best_index as int, brood[best_index as int] + extra);
                let fb = brood.update(best_index as int, brood[best_index as int] + extra);
                assert(sum_seq(fb) == size as int);
                assert forall|s2: int|
                    0 <= s2 < kept0.len() && s2 != best_index as int implies fb[s2] == floor_brood(
                    #[trigger] kept0[s2],
                    size as int,
                    total_avg as int,
                ) by {}
                assert(fb[best_index as int] >= floor_brood(
                    kept0[best_index as int],
                    size as int,
                    total_avg as int,
                ));
                assert(allocation_shape(kept0, fb, size as int, total_avg as int));
            }
        }
        self.nets = next_nets;
        Ok(())
    }
}

} // verus!
