//! The configuration capability: coefficients, thresholds, mutation
//! probabilities and the weight initialisation / perturbation strategy,
//! injected into the engine by the driver.

use vstd::prelude::*;

verus! {

use crate::rng::rand_below;
use crate::{COEF_CAP, FX_ONE, PROB_ONE, W_MAX};

/// Configuration consumed by the engine. Probabilities, coefficients and
/// percentages are fixed-point with `PROB_ONE` (or `FX_ONE`) as the unit.
///
/// The deterministic getters each return the value of a paired spec
/// function, so contracts elsewhere can speak of the configured values;
/// `init_weight` and `mutate_weight` may draw randomness and promise only
/// that the weight they return stays within `W_MAX`.
pub trait Conf {
    /// The configured coefficient of excess genes, as a spec-level value.
    spec fn spec_excess_coef(&self) -> u64;

    /// The configured coefficient of disjoint genes, as a spec-level value.
    spec fn spec_disjoint_coef(&self) -> u64;

    /// The configured coefficient of the average weight difference, as a spec-level value.
    spec fn spec_weight_diff_coef(&self) -> u64;

    /// The configured compatibility threshold, as a spec-level value.
    spec fn spec_compat_threshold(&self) -> u64;

    /// The configured size normalisation of genome lengths, as a spec-level value.
    spec fn spec_size_norm(&self, size1: int, size2: int) -> u64;

    /// The configured survival share of a culled species, as a spec-level value.
    spec fn spec_cull_pct(&self) -> u64;

    /// The configured staleness threshold, as a spec-level value.
    spec fn spec_staleness_threshold(&self) -> u32;

    fn get_excess_coef(&self) -> (r: u64)
        ensures
            r == self.spec_excess_coef(),
            r <= COEF_CAP,
    ;

    fn get_disjoint_coef(&self) -> (r: u64)
        ensures
            r == self.spec_disjoint_coef(),
            r <= COEF_CAP,
    ;

    fn get_weight_diff_coef(&self) -> (r: u64)
        ensures
            r == self.spec_weight_diff_coef(),
            r <= COEF_CAP,
    ;

    fn get_compat_threshold(&self) -> (r: u64)
        ensures
            r == self.spec_compat_threshold(),
    ;

    fn size_norm(&self, size1: usize, size2: usize) -> (r: u64)
        ensures
            r == self.spec_size_norm(size1 as int, size2 as int),
            1 <= r,
    ;

    fn get_weight_mutation_prob(&self) -> u64;

    fn get_link_addition_mutation_prob(&self) -> u64;

    fn get_node_addition_mutation_prob(&self) -> u64;

    fn get_link_disable_mutation_prob(&self) -> u64;

    fn get_complete_weight_override_prob(&self) -> u64;

    fn link_enabling_in_child_prob(&self) -> u64;

    fn get_crossover_prob(&self) -> u64;

    /// A fresh weight for a new or rerolled link.
    fn init_weight(&self) -> (r: i64)
        ensures
            -W_MAX <= r <= W_MAX,
    ;

    /// A perturbed replacement for the weight `weight`.
    fn mutate_weight(&self, weight: i64) -> (r: i64)
        requires
            -W_MAX <= weight <= W_MAX,
        ensures
            -W_MAX <= r <= W_MAX,
    ;

    fn get_cull_survival_percentage(&self) -> (r: u64)
        ensures
            r == self.spec_cull_pct(),
            1 <= r <= PROB_ONE,
    ;

    fn get_staleness_threshold(&self) -> (r: u32)
        ensures
            r == self.spec_staleness_threshold(),
    ;
}

/// A plain configuration carrier: every knob is a public field, and the
/// getters clamp each field into the range its contract promises. New
/// weights are drawn uniformly from `[-init_weight_range, init_weight_range]`
/// and perturbations uniformly from `[-perturb_range, perturb_range]`.
pub struct FixedConf {
    pub excess_coef: u64,
    pub disjoint_coef: u64,
    pub weight_diff_coef: u64,
    pub compat_threshold: u64,
    pub weight_mutation_prob: u64,
    pub link_addition_mutation_prob: u64,
    pub node_addition_mutation_prob: u64,
    pub link_disable_mutation_prob: u64,
    pub complete_weight_override_prob: u64,
    pub link_enabling_prob: u64,
    pub crossover_prob: u64,
    pub cull_survival_percentage: u64,
    pub staleness_threshold: u32,
    pub init_weight_range: i64,
    pub perturb_range: i64,
}

/// Clamps a coefficient field into `[0, COEF_CAP]`.
pub open spec fn clamp_coef(v: u64) -> u64 {
    if v > COEF_CAP {
        COEF_CAP
    } else {
        v
    }
}

/// Clamps a percentage field into `[1, PROB_ONE]`.
pub open spec fn clamp_pct(v: u64) -> u64 {
    if v < 1 {
        1
    } else if v > PROB_ONE {
        PROB_ONE
    } else {
        v
    }
}

impl FixedConf {
    /// The stock configuration: coefficients one, one and two fifths; a
    /// compatibility threshold of three; the customary mutation rates; and
    /// uniform weight draws from `[-1, 1]` with perturbations within a half.
    pub fn new() -> FixedConf {
        FixedConf {
            excess_coef: 1_000_000,
            disjoint_coef: 1_000_000,
            weight_diff_coef: 400_000,
            compat_threshold: 3_000_000,
            weight_mutation_prob: 800_000,
            link_addition_mutation_prob: 500_000,
            node_addition_mutation_prob: 200_000,
            link_disable_mutation_prob: 500_000,
            complete_weight_override_prob: 100_000,
            link_enabling_prob: 250_000,
            crossover_prob: 750_000,
            cull_survival_percentage: 600_000,
            staleness_threshold: 15,
            init_weight_range: 1_000_000,
            perturb_range: 500_000,
        }
    }
}

impl Conf for FixedConf {
    open spec fn spec_excess_coef(&self) -> u64 {
        clamp_coef(self.excess_coef)
    }

    open spec fn spec_disjoint_coef(&self) -> u64 {
        clamp_coef(self.disjoint_coef)
    }

    open spec fn spec_weight_diff_coef(&self) -> u64 {
        clamp_coef(self.weight_diff_coef)
    }

    open spec fn spec_compat_threshold(&self) -> u64 {
        self.compat_threshold
    }

    open spec fn spec_size_norm(&self, size1: int, size2: int) -> u64 {
        FX_ONE as u64
    }

    open spec fn spec_cull_pct(&self) -> u64 {
        clamp_pct(self.cull_survival_percentage)
    }

    open spec fn spec_staleness_threshold(&self) -> u32 {
        self.staleness_threshold
    }

    fn get_excess_coef(&self) -> u64 {
        if self.excess_coef > COEF_CAP {
            COEF_CAP
        } else {
            self.excess_coef
        }
    }

    fn get_disjoint_coef(&self) -> u64 {
        if self.disjoint_coef > COEF_CAP {
            COEF_CAP
        } else {
            self.disjoint_coef
        }
    }

    fn get_weight_diff_coef(&self) -> u64 {
        if self.weight_diff_coef > COEF_CAP {
            COEF_CAP
        } else {
            self.weight_diff_coef
        }
    }

    fn get_compat_threshold(&self) -> u64 {
        self.compat_threshold
    }

    fn size_norm(&self, size1: usize, size2: usize) -> u64 {
        FX_ONE as u64
    }

    fn get_weight_mutation_prob(&self) -> u64 {
        self.weight_mutation_prob
    }

    fn get_link_addition_mutation_prob(&self) -> u64 {
        self.link_addition_mutation_prob
    }

    fn get_node_addition_mutation_prob(&self) -> u64 {
        self.node_addition_mutation_prob
    }

    fn get_link_disable_mutation_prob(&self) -> u64 {
        self.link_disable_mutation_prob
    }

    fn get_complete_weight_override_prob(&self) -> u64 {
        self.complete_weight_override_prob
    }

    fn link_enabling_in_child_prob(&self) -> u64 {
        self.link_enabling_prob
    }

    fn get_crossover_prob(&self) -> u64 {
        self.crossover_prob
    }

    fn init_weight(&self) -> i64 {
        uniform_weight(self.init_weight_range)
    }

    fn mutate_weight(&self, weight: i64) -> i64 {
        let delta = uniform_weight(self.perturb_range);
        let moved = weight + delta;
        if moved > W_MAX {
            W_MAX
        } else if moved < -W_MAX {
            -W_MAX
        } else {
            moved
        }
    }

    fn get_cull_survival_percentage(&self) -> u64 {
        if self.cull_survival_percentage < 1 {
            1
        } else if self.cull_survival_percentage > PROB_ONE {
            PROB_ONE
        } else {
            self.cull_survival_percentage
        }
    }

    fn get_staleness_threshold(&self) -> u32 {
        self.staleness_threshold
    }
}

/// Draws a weight uniformly from `[-range, range]`, after clamping the
/// requested range into `[0, W_MAX]`.
fn uniform_weight(range: i64) -> (r: i64)
    ensures
        -W_MAX <= r <= W_MAX,
{
    let range = if range < 0 {
        0
    } else if range > W_MAX {
        W_MAX
    } else {
        range
    };
    let span = (2 * range + 1) as u64;
    let draw = rand_below(span) as i64;
    draw - range
}

} // verus!
