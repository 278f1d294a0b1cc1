use neat::{Conf, FixedConf, Innov, Link, Net, Node, Pop, Species, FX_HALF, FX_ONE};

fn zero_weight_conf() -> FixedConf {
    let mut conf = FixedConf::new();
    conf.init_weight_range = 0;
    conf.perturb_range = 0;
    conf
}

#[test]
fn ledger_reuses_ids_within_a_window() {
    let mut innovs: Vec<Innov> = Vec::new();
    let a = neat::ledger::allocate_or_reuse(&mut innovs, 0, 0, 3);
    let b = neat::ledger::allocate_or_reuse(&mut innovs, 0, 1, 3);
    let a_again = neat::ledger::allocate_or_reuse(&mut innovs, 0, 0, 3);
    assert_eq!(a, 0);
    assert_eq!(b, 1);
    assert_eq!(a_again, a);
    assert_eq!(innovs.len(), 2);
    // a later window gives the same pair a fresh id
    let fresh = neat::ledger::allocate_or_reuse(&mut innovs, 2, 0, 3);
    assert_eq!(fresh, 2);
    assert_eq!(innovs.len(), 3);
    assert_eq!(innovs[2].from, 0);
    assert_eq!(innovs[2].to, 3);
}

#[test]
fn new_net_wires_every_input_to_every_output() {
    let mut innovs: Vec<Innov> = Vec::new();
    let conf = zero_weight_conf();
    let net = Net::new(2, 1, &mut innovs, 0, &conf);
    assert_eq!(net.get_links_count(), 3);
    assert_eq!(net.get_enabled_links_count(), 3);
    assert_eq!(net.get_hidden_nodes_count(), 0);
    assert_eq!(innovs.len(), 3);
    // a second genome against the same window reuses the same ids
    let net2 = Net::new(2, 1, &mut innovs, 0, &conf);
    assert_eq!(innovs.len(), 3);
    for k in 0..3 {
        assert_eq!(net.links[k].innov, net2.links[k].innov);
    }
}

#[test]
fn activation_is_half_at_zero_and_symmetric() {
    assert_eq!(Node::activate(0), FX_HALF);
    let up = Node::activate(2_000_000_000_000);
    let down = Node::activate(-2_000_000_000_000);
    assert_eq!(up + down, FX_ONE);
    assert!(up > FX_HALF);
    assert!(down < FX_HALF);
    assert!(Node::activate(5_000_000_000_000) > up);
}

#[test]
fn zero_weight_population_evaluates_to_one_half() {
    // population of 150, 2 inputs + bias + 1 output, zero hidden nodes, all
    // links enabled with weight zero: every genome answers one half to any input
    let conf = zero_weight_conf();
    let pop = Pop::new(150, 2, 1, &conf);
    assert_eq!(pop.nets.len(), 150);
    for net in &pop.nets {
        assert_eq!(net.get_enabled_links_count(), 3);
        assert_eq!(net.get_hidden_nodes_count(), 0);
        let o1 = net.eval(&vec![0, FX_ONE], &pop.innovs);
        let o2 = net.eval(&vec![FX_ONE, FX_ONE], &pop.innovs);
        assert_eq!(o1, vec![FX_HALF]);
        assert_eq!(o2, vec![FX_HALF]);
    }
}

#[test]
fn evaluation_is_idempotent() {
    let mut innovs: Vec<Innov> = Vec::new();
    let conf = FixedConf::new();
    let mut net = Net::new(3, 2, &mut innovs, 0, &conf);
    net.mutate(&mut innovs, 0, &conf);
    net.mutate(&mut innovs, 0, &conf);
    let inputs = vec![FX_ONE, -FX_ONE, 250_000];
    let first = net.eval(&inputs, &innovs);
    let second = net.eval(&inputs, &innovs);
    assert_eq!(first, second);
    assert_eq!(first.len(), 2);
}

#[test]
fn evaluation_matches_the_fixed_point_sigmoid_exactly() {
    let mut innovs: Vec<Innov> = Vec::new();
    let conf = zero_weight_conf();
    let mut net = Net::new(1, 1, &mut innovs, 0, &conf);
    // input -> output carries one, bias -> output carries zero
    for link in net.links.iter_mut() {
        if innovs[link.innov].from == 0 {
            link.weight = FX_ONE;
        }
    }
    let out = net.eval(&vec![FX_ONE], &innovs);
    // sum is 1.0, scaled magnitude y = 4.9: q = y/(2(1+y)) of a half
    let y: i64 = 4_900_000;
    let q = y * FX_HALF / (FX_ONE + y);
    assert_eq!(out, vec![FX_HALF + q]);
    assert_eq!(out, vec![915_254]);
}

#[test]
fn crossover_keeps_the_first_parents_innovations() {
    let mut innovs: Vec<Innov> = Vec::new();
    let conf = FixedConf::new();
    let mut p1 = Net::new(2, 1, &mut innovs, 0, &conf);
    let p2 = Net::new(2, 1, &mut innovs, 0, &conf);
    p1.mutate_node(&mut innovs, 0);
    let child = p1.crossover(&p2, &conf);
    assert_eq!(child.links.len(), p1.links.len());
    for k in 0..child.links.len() {
        assert_eq!(child.links[k].innov, p1.links[k].innov);
    }
    // genes unique to the second parent are not inherited
    let child2 = p2.crossover(&p1, &conf);
    assert_eq!(child2.links.len(), p2.links.len());
}

#[test]
fn node_mutation_splits_a_link() {
    let mut innovs: Vec<Innov> = Vec::new();
    let conf = zero_weight_conf();
    let mut net = Net::new(2, 1, &mut innovs, 0, &conf);
    net.mutate_node(&mut innovs, 0);
    assert_eq!(net.get_links_count(), 5);
    assert_eq!(net.get_hidden_nodes_count(), 1);
    // the network still evaluates (no cycle was created)
    let out = net.eval(&vec![FX_ONE, FX_ONE], &innovs);
    assert_eq!(out.len(), 1);
}

#[test]
fn cycle_check_blocks_back_edges() {
    let mut innovs: Vec<Innov> = Vec::new();
    let conf = zero_weight_conf();
    let net = Net::new(2, 1, &mut innovs, 0, &conf);
    // the output node (index 3) already reaches nothing; inputs reach it
    assert!(net.creates_cycles(3, 0, &innovs));
    assert!(net.creates_cycles(3, 1, &innovs));
    assert!(net.creates_cycles(2, 2, &innovs));
    assert!(!net.creates_cycles(0, 3, &innovs));
}

#[test]
fn repeated_link_mutation_keeps_evaluation_terminating() {
    let mut innovs: Vec<Innov> = Vec::new();
    let mut conf = FixedConf::new();
    conf.node_addition_mutation_prob = 300_000;
    let mut net = Net::new(3, 2, &mut innovs, 0, &conf);
    for _ in 0..40 {
        net.mutate_link(&mut innovs, 0, &conf);
        net.mutate_node(&mut innovs, 0);
    }
    let out = net.eval(&vec![FX_ONE, 0, -FX_ONE], &innovs);
    assert_eq!(out.len(), 2);
}

#[test]
fn compatibility_of_identical_genomes_is_zero() {
    let mut innovs: Vec<Innov> = Vec::new();
    let mut conf = FixedConf::new();
    // an absurd coefficient scale must not matter for identical genomes
    conf.excess_coef = 1_000_000_000;
    conf.disjoint_coef = 1_000_000_000;
    conf.compat_threshold = 1;
    let mut net = Net::new(2, 1, &mut innovs, 0, &conf);
    let mut sp = Species::new(&net);
    sp.add_member(&mut net, 7, &conf);
    assert!(net.in_species);
    assert_eq!(sp.members, vec![7]);
}

#[test]
fn compatibility_of_shared_ancestry_depends_only_on_weights() {
    // two genomes with identical 4-link ancestry and differing weights:
    // distance is the weight coefficient times the mean absolute difference,
    // whatever the excess and disjoint coefficients say
    let mut innovs: Vec<Innov> = Vec::new();
    let conf = zero_weight_conf();
    let mut net1 = Net::new(3, 1, &mut innovs, 0, &conf);
    let net2 = Net::new(3, 1, &mut innovs, 0, &conf);
    assert_eq!(net1.links.len(), 4);
    net1.links[0].weight = 1_000_000;
    net1.links[1].weight = 2_000_000;
    net1.links[2].weight = 3_000_000;
    net1.links[3].weight = 4_000_000;
    // expected distance: 0.4 * (1+2+3+4)/4 = 1.0 exactly
    let mut strict = FixedConf::new();
    strict.excess_coef = 999_000_000;
    strict.disjoint_coef = 999_000_000;
    strict.compat_threshold = 1_000_000;
    let mut sp = Species::new(&net2);
    sp.add_member(&mut net1, 0, &strict);
    assert!(!net1.in_species);
    let mut lax = FixedConf::new();
    lax.excess_coef = 999_000_000;
    lax.disjoint_coef = 999_000_000;
    lax.compat_threshold = 1_000_001;
    let mut sp2 = Species::new(&net2);
    sp2.add_member(&mut net1, 0, &lax);
    assert!(net1.in_species);
    assert_eq!(sp2.members, vec![0]);
}

#[test]
fn fitness_sharing_sums_to_the_average() {
    let mut innovs: Vec<Innov> = Vec::new();
    let conf = zero_weight_conf();
    let mut nets = Vec::new();
    for _ in 0..3 {
        nets.push(Net::new(2, 1, &mut innovs, 0, &conf));
    }
    nets[0].fitness = 3_000_000;
    nets[1].fitness = 4_000_000;
    nets[2].fitness = 5_000_000;
    let mut sp = Species::new(&nets[0]);
    sp.members = vec![0, 1, 2];
    sp.fitness_sharing(&nets);
    assert_eq!(sp.members_shared_fitness, vec![1_000_000, 1_333_333, 1_666_666]);
    let sum: u64 = sp.members_shared_fitness.iter().sum();
    assert_eq!(sp.avarage_fitness, sum);
    assert_eq!(sp.avarage_fitness, 3_999_999);
    assert_eq!(sp.best_fitness, 5_000_000);
    assert_eq!(sp.staleness, 0);
}

#[test]
fn staleness_reaches_the_threshold_on_the_fifteenth_flat_generation() {
    let mut innovs: Vec<Innov> = Vec::new();
    let conf = zero_weight_conf();
    let net = {
        let mut n = Net::new(2, 1, &mut innovs, 0, &conf);
        n.fitness = 2_000_000;
        n
    };
    let nets = vec![net];
    let mut sp = Species::new(&nets[0]);
    sp.members = vec![0];
    // first sharing improves on the zero best: staleness resets
    sp.fitness_sharing(&nets);
    assert_eq!(sp.staleness, 0);
    assert_eq!(sp.best_fitness, 2_000_000);
    // fifteen consecutive generations without improvement
    for gen in 1..=15u32 {
        sp.members = vec![0];
        sp.fitness_sharing(&nets);
        assert_eq!(sp.staleness, gen);
    }
    let threshold = 15u32;
    assert!(threshold <= sp.staleness);
    // one generation earlier it was still alive
    assert!(!(threshold <= sp.staleness - 1));
}

#[test]
fn culling_sorts_by_fitness_and_keeps_the_ceiling() {
    let mut innovs: Vec<Innov> = Vec::new();
    let conf = zero_weight_conf();
    let mut nets = Vec::new();
    for _ in 0..3 {
        nets.push(Net::new(2, 1, &mut innovs, 0, &conf));
    }
    nets[0].fitness = 1_000_000;
    nets[1].fitness = 5_000_000;
    nets[2].fitness = 3_000_000;
    let mut sp = Species::new(&nets[0]);
    sp.members = vec![0, 1, 2];
    let mut conf60 = FixedConf::new();
    conf60.cull_survival_percentage = 600_000;
    sp.cull(&nets, &conf60);
    // ceil(0.6 * 3) = 2 survivors, best fitness first
    assert_eq!(sp.members, vec![1, 2]);
}

#[test]
fn chosen_parents_are_members() {
    let mut innovs: Vec<Innov> = Vec::new();
    let conf = zero_weight_conf();
    let mut nets = Vec::new();
    for _ in 0..4 {
        nets.push(Net::new(2, 1, &mut innovs, 0, &conf));
    }
    nets[2].fitness = 9_000_000;
    let mut sp = Species::new(&nets[0]);
    sp.members = vec![1, 2, 3];
    sp.fitness_sharing(&nets);
    for _ in 0..20 {
        let p = sp.choose_parent();
        assert!(sp.members.contains(&p));
        let (a, b) = sp.choose_parents();
        assert!(sp.members.contains(&a));
        assert!(sp.members.contains(&b));
    }
}

#[test]
fn generations_keep_the_population_size() {
    let conf = FixedConf::new();
    let mut pop = Pop::new(150, 2, 1, &conf);
    for _ in 0..4 {
        for net in pop.nets.iter_mut() {
            let outs = net.eval(&vec![FX_ONE, 0], &pop.innovs);
            // reward answers close to one
            net.fitness = outs[0].max(0) as u64;
        }
        let r = pop.next_gen(&conf);
        assert!(r.is_ok());
        assert_eq!(pop.nets.len(), 150);
        assert!(!pop.species.is_empty());
    }
}

#[test]
fn a_fully_stale_population_reports_extinction() {
    let conf = zero_weight_conf();
    let mut pop = Pop::new(5, 2, 1, &conf);
    let mut sp = Species::new(&pop.nets[0]);
    sp.staleness = 15;
    pop.species.push(sp);
    // every zero-weight genome joins the one stale species, which then dies
    let r = pop.next_gen(&conf);
    assert!(r.is_err());
    assert!(pop.species.is_empty());
    assert_eq!(pop.nets.len(), 5);
}

#[test]
fn configured_weights_stay_in_their_range() {
    let mut conf = FixedConf::new();
    conf.init_weight_range = 250_000;
    conf.perturb_range = 100_000;
    for _ in 0..200 {
        let w = conf.init_weight();
        assert!(-250_000 <= w && w <= 250_000);
        let moved = conf.mutate_weight(200_000);
        assert!(200_000 - 100_000 <= moved && moved <= 200_000 + 100_000);
    }
}

#[test]
fn weight_mutation_leaves_disabled_links_alone() {
    let mut link = Link { innov: 4, weight: 123, enabled: false };
    let conf = FixedConf::new();
    link.mutate_weight(&conf);
    assert_eq!(link.weight, 123);
    assert_eq!(link.innov, 4);
    assert!(!link.enabled);
}

#[test]
fn find_link_locates_a_gene_by_innovation_id() {
    let mut innovs: Vec<Innov> = Vec::new();
    let conf = zero_weight_conf();
    let mut net = Net::new(2, 1, &mut innovs, 0, &conf);
    let wanted = net.links[1].innov;
    let nodes_len = net.nodes.len();
    let mut output_node = std::mem::replace(
        &mut net.nodes[3],
        Node { in_link_indices: Vec::new(), index: 3 },
    );
    let pos = output_node.find_link(wanted, &net);
    assert_eq!(net.links[output_node.in_link_indices[pos]].innov, wanted);
    net.nodes[3] = output_node;
    assert_eq!(net.nodes.len(), nodes_len);
}

#[test]
fn link_mutation_never_breaks_evaluation() {
    let mut innovs: Vec<Innov> = Vec::new();
    let conf = FixedConf::new();
    let mut net = Net::new(2, 2, &mut innovs, 0, &conf);
    for _ in 0..30 {
        net.mutate(&mut innovs, 0, &conf);
    }
    let out = net.eval(&vec![FX_ONE, FX_ONE], &innovs);
    assert_eq!(out.len(), 2);
    for v in out {
        assert!(0 <= v && v <= FX_ONE);
    }
}

#[test]
fn tst_builds_and_extends_a_net() {
    neat::tst();
}

#[test]
fn crossover_weights_come_from_one_of_the_parents() {
    let mut innovs: Vec<Innov> = Vec::new();
    let conf = zero_weight_conf();
    let mut p1 = Net::new(3, 1, &mut innovs, 0, &conf);
    let mut p2 = Net::new(3, 1, &mut innovs, 0, &conf);
    for k in 0..4 {
        p1.links[k].weight = 10_000 + k as i64;
        p2.links[k].weight = 20_000 + k as i64;
    }
    for _ in 0..10 {
        let child = p1.crossover(&p2, &conf);
        for k in 0..4 {
            let w = child.links[k].weight;
            assert!(w == p1.links[k].weight || w == p2.links[k].weight);
        }
    }
}

#[test]
fn links_stay_sorted_by_innovation_id_under_mutation() {
    let mut innovs: Vec<Innov> = Vec::new();
    let conf = FixedConf::new();
    let mut a = Net::new(2, 2, &mut innovs, 0, &conf);
    let mut b = Net::new(2, 2, &mut innovs, 0, &conf);
    // interleave structural mutations of two genomes against one ledger, so
    // reused ids land mid-sequence and must be inserted, not appended
    for _ in 0..15 {
        a.mutate(&mut innovs, 0, &conf);
        b.mutate(&mut innovs, 0, &conf);
    }
    for net in [&a, &b] {
        for k in 1..net.links.len() {
            assert!(net.links[k - 1].innov < net.links[k].innov);
        }
    }
}
