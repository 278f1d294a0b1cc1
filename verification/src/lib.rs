//! NEAT-style neuroevolution: populations of variable-topology feed-forward
//! networks evolve through structural mutation, weight mutation and
//! crossover, with an innovation ledger that lets independently discovered
//! structural changes within one generation share an id, and with
//! speciation, fitness sharing, culling and staleness-based extinction.
//!
//! All weights, activations, probabilities and coefficients are fixed-point
//! integers in units of `FX_ONE` (one millionth), so the whole engine is
//! free of floating point; a driver converts at the boundary.

use vstd::prelude::*;

pub mod conf;
pub mod ledger;
pub mod neuralnet;
pub mod population;
pub mod rng;
pub mod species;

pub use conf::{Conf, FixedConf};
pub use ledger::Innov;
pub use neuralnet::{Link, Net, Node};
pub use population::Pop;
pub use species::Species;

verus! {

/// One whole unit in the fixed-point scale: values count millionths.
pub const FX_ONE: i64 = 1_000_000;

/// Half a unit in the fixed-point scale.
pub const FX_HALF: i64 = 500_000;

/// Largest magnitude a link weight may take (one thousand whole units).
pub const W_MAX: i64 = 1_000_000_000;

/// Largest value a compatibility coefficient may take (one thousand whole
/// units).
pub const COEF_CAP: u64 = 1_000_000_000;

/// A probability of one, in the fixed-point scale.
pub const PROB_ONE: u64 = 1_000_000;

/// Magnitude (fixed-point) at which a node's input sum saturates before
/// the activation applies; the sigmoid is flat long before one thousand.
pub const SIG_SAT: i64 = 1_000_000_000;

/// Largest fitness a driver may assign to a genome.
pub const FIT_CAP: u64 = 0x100_0000_0000;

/// Largest population size the generation transition accepts.
pub const SIZE_CAP: usize = 0x10_0000;

/// Exercises genome construction against a fresh ledger: builds a small
/// network and adds one extra link between its first two input nodes.
pub fn tst() {
    let mut innovs = Vec::<Innov>::new();
    let conf = FixedConf::new();
    let mut net = Net::new(2, 1, &mut innovs, 0, &conf);
    proof {
        let r = Seq::<int>::new(net.nodes@.len() as nat, |i: int| i);
        assert forall|k: int| 0 <= k < net.links@.len() implies r[#[trigger] neuralnet::link_from(
            net.links@,
            innovs@,
            k,
        )] < r[neuralnet::link_to(net.links@, innovs@, k)] by {
            assert(net.links@[k].enabled);
        }
        assert(r.len() == net.nodes@.len() as int && neuralnet::rank_ok(net.links@, innovs@, r)
            && r[0int] < r[1int]);
        assert(neuralnet::can_extend(net.links@, innovs@, net.nodes@.len() as int, 0, 1));
        assert forall|k: int| 0 <= k < net.links@.len() implies !(neuralnet::link_from(
            net.links@,
            innovs@,
            k,
        ) == 0int && #[trigger] neuralnet::link_to(net.links@, innovs@, k) == 1int) by {
            assert(net.links@[k].enabled);
        }
        assert(!neuralnet::has_pair(net.links@, innovs@, 0int, 1int));
    }
    net.add_link(&mut innovs, 0, FX_ONE, 0, 1);
}

} // verus!
