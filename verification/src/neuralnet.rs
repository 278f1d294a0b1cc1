//! Genomes: nodes, links and the structural operations on them.
//!
//! A genome's node index space is partitioned: `[0, inputs)` are input
//! nodes, `inputs` is the constant bias node, `[inputs + 1, inputs + 1 +
//! outputs)` are output nodes, and the remainder are hidden nodes created by
//! node-addition mutation. Indices are never reused or compacted.
//!
//! Well-formedness keeps the link list strictly ascending by innovation id
//! (crossover and compatibility rely on a merge walk), keeps every node's
//! incoming-link list exactly the canonical list derived from the link
//! vector, and keeps the whole link graph acyclic, witnessed by a rank
//! assignment under which every link ascends. Acyclicity is maintained over
//! all links, enabled or not, so that re-enabling a link (crossover, link
//! mutation) and splitting a disabled link (node mutation) can never create
//! an evaluation cycle.

use vstd::prelude::*;

verus! {

use crate::conf::Conf;
use crate::ledger::{allocate_or_reuse, ledger_wf, window_has_pair, Innov};
use crate::{FX_HALF, FX_ONE, SIG_SAT, W_MAX};

/// One connection gene: its ledger id, fixed-point weight, and enabled flag.
/// The connected node pair is recorded by the ledger entry with this id.
#[derive(Clone, Copy, PartialEq, Eq, Structural)]
pub struct Link {
    pub innov: usize,
    pub weight: i64,
    pub enabled: bool,
}

/// One neuron: its own index and the indices (into the genome's link
/// vector) of the links that point into it, ascending.
pub struct Node {
    pub in_link_indices: Vec<usize>,
    pub index: usize,
}

/// One genome: a network's structure plus the driver-assigned fitness and
/// the flag marking that speciation has placed it.
pub struct Net {
    pub inputs_count: usize,
    pub outputs_count: usize,
    pub nodes: Vec<Node>,
    pub links: Vec<Link>,
    pub in_species: bool,
    pub fitness: u64,
}

/// The source node index of link `k`, read through the ledger.
pub open spec fn link_from(links: Seq<Link>, innovs: Seq<Innov>, k: int) -> int {
    innovs[links[k].innov as int].from as int
}

/// The destination node index of link `k`, read through the ledger.
pub open spec fn link_to(links: Seq<Link>, innovs: Seq<Innov>, k: int) -> int {
    innovs[links[k].innov as int].to as int
}

/// Every link references a ledger entry, stays within the node space, and
/// carries a weight of magnitude at most `W_MAX`.
pub open spec fn links_wf(links: Seq<Link>, innovs: Seq<Innov>, n_nodes: int) -> bool {
    forall|k: int|
        0 <= k < links.len() ==> {
            &&& (#[trigger] links[k]).innov < innovs.len()
            &&& 0 <= link_from(links, innovs, k) < n_nodes
            &&& 0 <= link_to(links, innovs, k) < n_nodes
            &&& -W_MAX <= links[k].weight <= W_MAX
        }
}

/// Links are strictly ascending by innovation id.
pub open spec fn links_sorted(links: Seq<Link>) -> bool {
    forall|a: int, b: int|
        0 <= a < b < links.len() ==> (#[trigger] links[a]).innov < (#[trigger] links[b]).innov
}

/// The canonical incoming-link list of node `t`: all indices of links whose
/// destination is `t`, ascending.
pub open spec fn incoming(links: Seq<Link>, innovs: Seq<Innov>, t: int) -> Seq<usize>
    decreases links.len(),
{
    if links.len() == 0 {
        Seq::empty()
    } else if link_to(links, innovs, links.len() - 1) == t {
        incoming(links.drop_last(), innovs, t).push((links.len() - 1) as usize)
    } else {
        incoming(links.drop_last(), innovs, t)
    }
}

/// Every node records its own index and the canonical incoming list.
pub open spec fn nodes_wf(nodes: Seq<Node>, links: Seq<Link>, innovs: Seq<Innov>) -> bool {
    forall|t: int|
        0 <= t < nodes.len() ==> (#[trigger] nodes[t]).index == t
            && nodes[t].in_link_indices@ == incoming(links, innovs, t)
}

/// `r` ranks the nodes so that every link ascends strictly.
pub open spec fn rank_ok(links: Seq<Link>, innovs: Seq<Innov>, r: Seq<int>) -> bool {
    forall|k: int|
        0 <= k < links.len() ==> r[#[trigger] link_from(links, innovs, k)] < r[link_to(
            links,
            innovs,
            k,
        )]
}

/// The link graph is acyclic: some rank assignment ascends along every link.
pub open spec fn acyclic(links: Seq<Link>, innovs: Seq<Innov>, n_nodes: int) -> bool {
    exists|r: Seq<int>| r.len() == n_nodes && rank_ok(links, innovs, r)
}

/// A link `from -> to` can be added without closing a cycle: some rank
/// assignment ascends along every link and from `from` to `to`.
pub open spec fn can_extend(
    links: Seq<Link>,
    innovs: Seq<Innov>,
    n_nodes: int,
    from: usize,
    to: usize,
) -> bool {
    exists|r: Seq<int>|
        r.len() == n_nodes && rank_ok(links, innovs, r) && r[from as int] < r[to as int]
}

/// Some link in the sequence carries the innovation id `id`.
pub open spec fn has_innov(links: Seq<Link>, id: usize) -> bool {
    exists|j: int| 0 <= j < links.len() && (#[trigger] links[j]).innov == id
}

/// Some enabled link connects `from` to `to` carrying exactly weight `w`.
pub open spec fn has_enabled_link(
    links: Seq<Link>,
    innovs: Seq<Innov>,
    f: int,
    t: int,
    w: i64,
) -> bool {
    exists|k: int|
        0 <= k < links.len() && #[trigger] link_from(links, innovs, k) == f && link_to(
            links,
            innovs,
            k,
        ) == t && links[k].weight == w && links[k].enabled
}

/// Some link already connects `from` to `to`.
pub open spec fn has_pair(links: Seq<Link>, innovs: Seq<Innov>, from: int, to: int) -> bool {
    exists|k: int|
        0 <= k < links.len() && #[trigger] link_from(links, innovs, k) == from && link_to(
            links,
            innovs,
            k,
        ) == to
}

/// A well-formed genome relative to the ledger it references.
pub open spec fn net_wf(net: Net, innovs: Seq<Innov>) -> bool {
    &&& 1 <= net.inputs_count
    &&& 1 <= net.outputs_count
    &&& net.inputs_count + 1 + net.outputs_count <= net.nodes@.len()
    &&& links_wf(net.links@, innovs, net.nodes@.len() as int)
    &&& links_sorted(net.links@)
    &&& nodes_wf(net.nodes@, net.links@, innovs)
    &&& acyclic(net.links@, innovs, net.nodes@.len() as int)
}

/// Two genomes have the same structure, weights, flags and fitness.
pub open spec fn net_equiv(a: Net, b: Net) -> bool {
    &&& a.inputs_count == b.inputs_count
    &&& a.outputs_count == b.outputs_count
    &&& a.in_species == b.in_species
    &&& a.fitness == b.fitness
    &&& a.links@ == b.links@
    &&& a.nodes@.len() == b.nodes@.len()
    &&& forall|t: int|
        0 <= t < a.nodes@.len() ==> (#[trigger] a.nodes@[t]).index == b.nodes@[t].index
            && a.nodes@[t].in_link_indices@ == b.nodes@[t].in_link_indices@
}

/// Entries of the canonical incoming list point at links into `t`, ascending.
pub proof fn lemma_incoming_props(links: Seq<Link>, innovs: Seq<Innov>, t: int)
    requires
        links.len() <= usize::MAX,
    ensures
        forall|i: int|
            0 <= i < incoming(links, innovs, t).len() ==> #[trigger] incoming(links, innovs, t)[i]
                < links.len() && link_to(links, innovs, incoming(links, innovs, t)[i] as int) == t,
        forall|a: int, b: int|
            0 <= a < b < incoming(links, innovs, t).len() ==> incoming(links, innovs, t)[a]
                < incoming(links, innovs, t)[b],
    decreases links.len(),
{
    if links.len() > 0 {
        let pre = links.drop_last();
        lemma_incoming_props(pre, innovs, t);
        assert(forall|k: int| 0 <= k < pre.len() ==> pre[k] == links[k]);
        assert(forall|k: int|
            0 <= k < pre.len() ==> link_to(pre, innovs, k) == link_to(links, innovs, k));
        let inc = incoming(links, innovs, t);
        let pinc = incoming(pre, innovs, t);
        lemma_incoming_bound(pre, innovs, t);
        if link_to(links, innovs, links.len() - 1) == t {
            assert(inc == pinc.push((links.len() - 1) as usize));
            assert forall|i: int| 0 <= i < inc.len() implies #[trigger] inc[i] < links.len()
                && link_to(links, innovs, inc[i] as int) == t by {
                if i < pinc.len() {
                    assert(inc[i] == pinc[i]);
                    assert(pinc[i] < pre.len());
                    assert(link_to(pre, innovs, pinc[i] as int) == t);
                    assert(link_to(links, innovs, pinc[i] as int) == t);
                } else {
                    assert(inc[i] == (links.len() - 1) as usize);
                }
            }
            assert forall|a: int, b: int| 0 <= a < b < inc.len() implies inc[a] < inc[b] by {
                if b < pinc.len() {
                    assert(inc[a] == pinc[a] && inc[b] == pinc[b]);
                    assert(pinc[a] < pinc[b]);
                } else {
                    assert(inc[b] == (links.len() - 1) as usize);
                    assert(inc[a] == pinc[a]);
                    assert(pinc[a] < pre.len());
                }
            }
        } else {
            assert(inc == pinc);
            assert forall|i: int| 0 <= i < inc.len() implies #[trigger] inc[i] < links.len()
                && link_to(links, innovs, inc[i] as int) == t by {
                assert(inc[i] == pinc[i]);
                assert(pinc[i] < pre.len());
                assert(link_to(pre, innovs, pinc[i] as int) == t);
                assert(link_to(links, innovs, pinc[i] as int) == t);
            }
            assert forall|a: int, b: int| 0 <= a < b < inc.len() implies inc[a] < inc[b] by {
                assert(inc[a] == pinc[a] && inc[b] == pinc[b]);
                assert(pinc[a] < pinc[b]);
            }
        }
    }
}

/// Entries of the canonical incoming list are below the link count.
pub proof fn lemma_incoming_bound(links: Seq<Link>, innovs: Seq<Innov>, t: int)
    requires
        links.len() <= usize::MAX,
    ensures
        forall|i: int|
            0 <= i < incoming(links, innovs, t).len() ==> #[trigger] incoming(links, innovs, t)[i]
                < links.len(),
    decreases links.len(),
{
    if links.len() > 0 {
        let pre = links.drop_last();
        lemma_incoming_bound(pre, innovs, t);
        let inc = incoming(links, innovs, t);
        let pinc = incoming(pre, innovs, t);
        if link_to(links, innovs, links.len() - 1) == t {
            assert(inc == pinc.push((links.len() - 1) as usize));
            assert forall|i: int| 0 <= i < inc.len() implies #[trigger] inc[i] < links.len() by {
                if i < pinc.len() {
                    assert(inc[i] == pinc[i]);
                } else {
                    assert(inc[i] == (links.len() - 1) as usize);
                }
            }
        } else {
            assert(inc == pinc);
        }
    }
}

/// Extending the ledger leaves every link lookup and incoming list unchanged.
pub proof fn lemma_incoming_ledger_extend(
    links: Seq<Link>,
    innovs1: Seq<Innov>,
    innovs2: Seq<Innov>,
    t: int,
)
    requires
        innovs1.is_prefix_of(innovs2),
        forall|k: int| 0 <= k < links.len() ==> (#[trigger] links[k]).innov < innovs1.len(),
    ensures
        incoming(links, innovs1, t) == incoming(links, innovs2, t),
    decreases links.len(),
{
    if links.len() > 0 {
        let pre = links.drop_last();
        assert(forall|k: int| 0 <= k < pre.len() ==> pre[k] == links[k]);
        lemma_incoming_ledger_extend(pre, innovs1, innovs2, t);
        assert(link_to(links, innovs1, links.len() - 1) == link_to(
            links,
            innovs2,
            links.len() - 1,
        ));
    }
}

/// Copies a list of link indices.
fn clone_indices(v: &Vec<usize>) -> (r: Vec<usize>)
    ensures
        r@ == v@,
{
    let mut out: Vec<usize> = Vec::new();
    let mut i: usize = 0;
    while i < v.len()
        invariant
            i <= v@.len(),
            out@ == v@.take(i as int),
        decreases v@.len() - i,
    {
        out.push(v[i]);
        proof {
            assert(out@ =~= v@.take(i + 1 as int));
        }
        i += 1;
    }
    proof {
        assert(v@.take(v@.len() as int) =~= v@);
    }
    out
}

impl Clone for Node {
    /// Copies the node.
    fn clone(&self) -> (r: Node)
        ensures
            r.index == self.index,
            r.in_link_indices@ == self.in_link_indices@,
    {
        Node { in_link_indices: clone_indices(&self.in_link_indices), index: self.index }
    }
}

impl Clone for Net {
    /// Copies the genome, structure, fitness and flags alike.
    fn clone(&self) -> (r: Net)
        ensures
            net_equiv(r, *self),
    {
        let mut nodes: Vec<Node> = Vec::new();
        let mut t: usize = 0;
        while t < self.nodes.len()
            invariant
                t <= self.nodes@.len(),
                nodes@.len() == t,
                forall|u: int|
                    0 <= u < t ==> (#[trigger] nodes@[u]).index == self.nodes@[u].index
                        && nodes@[u].in_link_indices@ == self.nodes@[u].in_link_indices@,
            decreases self.nodes@.len() - t,
        {
            nodes.push(self.nodes[t].clone());
            t += 1;
        }
        let mut links: Vec<Link> = Vec::new();
        let mut k: usize = 0;
        while k < self.links.len()
            invariant
                k <= self.links@.len(),
                links@ == self.links@.take(k as int),
            decreases self.links@.len() - k,
        {
            links.push(self.links[k]);
            proof {
                assert(links@ =~= self.links@.take(k + 1 as int));
            }
            k += 1;
        }
        proof {
            assert(self.links@.take(self.links@.len() as int) =~= self.links@);
        }
        Net {
            inputs_count: self.inputs_count,
            outputs_count: self.outputs_count,
            nodes,
            links,
            in_species: self.in_species,
            fitness: self.fitness,
        }
    }
}

impl Net {
    /// The number of links in the genome.
    pub fn get_links_count(&self) -> (r: usize)
        ensures
            r == self.links@.len(),
    {
        self.links.len()
    }

    /// The number of enabled links in the genome.
    pub fn get_enabled_links_count(&self) -> (r: usize)
        ensures
            r == enabled_count(self.links@),
    {
        let mut out: usize = 0;
        let mut k: usize = 0;
        while k < self.links.len()
            invariant
                k <= self.links@.len(),
                out == enabled_count(self.links@.take(k as int)),
                out <= k,
            decreases self.links@.len() - k,
        {
            proof {
                assert(self.links@.take(k + 1 as int).drop_last() =~= self.links@.take(k as int));
            }
            if self.links[k].enabled {
                out += 1;
            }
            k += 1;
        }
        proof {
            assert(self.links@.take(self.links@.len() as int) =~= self.links@);
        }
        out
    }

    /// The number of hidden nodes: all nodes beyond the inputs, the bias
    /// node and the outputs.
    pub fn get_hidden_nodes_count(&self) -> (r: usize)
        requires
            self.inputs_count + 1 + self.outputs_count <= self.nodes@.len(),
        ensures
            r == self.nodes@.len() - self.inputs_count - 1 - self.outputs_count,
    {
        self.nodes.len() - self.inputs_count - 1 - self.outputs_count
    }

    /// Creates a genome with the given input and output counts: input nodes,
    /// one bias node and output nodes, with every input and the bias
    /// connected to every output by an enabled link whose weight comes from
    /// `conf.init_weight()`. Structural ids come from the ledger, so two
    /// genomes built against the same ledger window share ids.
    #[verifier::rlimit(100)]
    pub fn new<C: Conf>(
        inputs_count: usize,
        outputs_count: usize,
        innovs: &mut Vec<Innov>,
        old_innovs_count: usize,
        conf: &C,
    ) -> (out: Net)
        requires
            1 <= inputs_count,
            1 <= outputs_count,
            inputs_count + 1 + outputs_count < usize::MAX,
            inputs_count * outputs_count + inputs_count + outputs_count + 1 < usize::MAX,
            ledger_wf(old(innovs)@),
            old_innovs_count <= old(innovs)@.len(),
        ensures
            ledger_wf(final(innovs)@),
            old(innovs)@.is_prefix_of(final(innovs)@),
            net_wf(out, final(innovs)@),
            out.inputs_count == inputs_count,
            out.outputs_count == outputs_count,
            out.nodes@.len() == inputs_count + 1 + outputs_count,
            out.fitness == 0,
            !out.in_species,
            out.links@.len() == (inputs_count + 1) * outputs_count,
            forall|k: int|
                0 <= k < out.links@.len() ==> (#[trigger] out.links@[k]).enabled && link_from(
                    out.links@,
                    final(innovs)@,
                    k,
                ) <= inputs_count && inputs_count + 1 <= link_to(out.links@, final(innovs)@, k)
                    && link_to(out.links@, final(innovs)@, k) < inputs_count + 1 + outputs_count,
            forall|jj: int, t: int|
                0 <= jj <= inputs_count && inputs_count + 1 <= t < inputs_count + 1 + outputs_count
                    ==> #[trigger] has_pair(out.links@, final(innovs)@, jj, t),
            pairs_distinct(out.links@, final(innovs)@),
            forall|k: int|
                0 <= k < out.links@.len() ==> old_innovs_count <= (#[trigger] out.links@[k]).innov,
            forall|k: int, i: int|
                0 <= k < out.links@.len() && old_innovs_count <= i < (
                #[trigger] out.links@[k]).innov ==> !((#[trigger] final(innovs)@[i]).from as int
                    == link_from(out.links@, final(innovs)@, k) && final(innovs)@[i].to as int
                    == link_to(out.links@, final(innovs)@, k)),
            final(innovs)@.len() <= old(innovs)@.len() + out.links@.len(),
            forall|i: int|
                old(innovs)@.len() <= i < final(innovs)@.len()
                    ==> (#[trigger] final(innovs)@[i]).from <= inputs_count && inputs_count + 1
                    <= final(innovs)@[i].to < inputs_count + 1 + outputs_count,
            (forall|jj: usize, t: usize|
                jj <= inputs_count && inputs_count + 1 <= t < inputs_count + 1 + outputs_count
                    ==> #[trigger] window_has_pair(
                    old(innovs)@,
                    old_innovs_count as int,
                    jj,
                    t,
                )) ==> final(innovs)@ == old(innovs)@,
    {
        let n_nodes = inputs_count + 1 + outputs_count;
        let mut out = Net {
            inputs_count,
            outputs_count,
            nodes: Vec::new(),
            links: Vec::new(),
            in_species: false,
            fitness: 0,
        };
        let mut t: usize = 0;
        while t < n_nodes
            invariant
                t <= n_nodes,
                out.nodes@.len() == t,
                out.links@.len() == 0,
                out.inputs_count == inputs_count,
                out.outputs_count == outputs_count,
                !out.in_species,
                out.fitness == 0,
                innovs@ == old(innovs)@,
                forall|u: int|
                    0 <= u < t ==> (#[trigger] out.nodes@[u]).index == u
                        && out.nodes@[u].in_link_indices@ == Seq::<usize>::empty(),
            decreases n_nodes - t,
        {
            out.nodes.push(Node { in_link_indices: Vec::new(), index: t });
            t += 1;
        }
        proof {
            assert(innovs@.subrange(0, old(innovs)@.len() as int) =~= old(innovs)@);
            assert(old(innovs)@.is_prefix_of(innovs@));
            assert forall|u: int| 0 <= u < n_nodes implies (#[trigger] out.nodes@[u]).index == u
                && out.nodes@[u].in_link_indices@ == incoming(out.links@, innovs@, u) by {
                assert(incoming(out.links@, innovs@, u) =~= Seq::<usize>::empty());
            }
            let r = Seq::<int>::new(n_nodes as nat, |i: int| 0);
            assert(r.len() == n_nodes as int && rank_ok(out.links@, innovs@, r));
            assert(acyclic(out.links@, innovs@, n_nodes as int));
            assert(net_wf(out, innovs@));
        }
        let mut o: usize = 0;
        while o < outputs_count
            invariant
                o <= outputs_count,
                out.inputs_count == inputs_count,
                out.outputs_count == outputs_count,
                out.nodes@.len() == n_nodes,
                n_nodes == inputs_count + 1 + outputs_count,
                !out.in_species,
                out.fitness == 0,
                ledger_wf(innovs@),
                old(innovs)@.is_prefix_of(innovs@),
                old_innovs_count <= innovs@.len(),
                net_wf(out, innovs@),
                out.links@.len() == o * (inputs_count + 1),
                forall|k: int|
                    0 <= k < out.links@.len() ==> (#[trigger] out.links@[k]).enabled && link_from(
                        out.links@,
                        innovs@,
                        k,
                    ) <= inputs_count && inputs_count + 1 <= link_to(out.links@, innovs@, k)
                        && link_to(out.links@, innovs@, k) < inputs_count + 1 + o,
                forall|jj: int, t: int|
                    0 <= jj <= inputs_count && inputs_count + 1 <= t < inputs_count + 1 + o
                        ==> #[trigger] has_pair(out.links@, innovs@, jj, t),
                pairs_distinct(out.links@, innovs@),
                forall|k: int|
                    0 <= k < out.links@.len() ==> old_innovs_count <= (
                    #[trigger] out.links@[k]).innov,
                forall|k: int, i: int|
                    0 <= k < out.links@.len() && old_innovs_count <= i < (
                    #[trigger] out.links@[k]).innov ==> !((#[trigger] innovs@[i]).from as int
                        == link_from(out.links@, innovs@, k) && innovs@[i].to as int == link_to(
                        out.links@,
                        innovs@,
                        k,
                    )),
                innovs@.len() <= old(innovs)@.len() + out.links@.len(),
                forall|i: int|
                    old(innovs)@.len() <= i < innovs@.len() ==> (#[trigger] innovs@[i]).from
                        <= inputs_count && inputs_count + 1 <= innovs@[i].to < inputs_count + 1
                        + outputs_count,
                (forall|jj: usize, t: usize|
                    jj <= inputs_count && inputs_count + 1 <= t < inputs_count + 1 + outputs_count
                        ==> #[trigger] window_has_pair(
                        old(innovs)@,
                        old_innovs_count as int,
                        jj,
                        t,
                    )) ==> innovs@ == old(innovs)@,
            decreases outputs_count - o,
        {
            let to = inputs_count + 1 + o;
            let mut j: usize = 0;
            while j < inputs_count + 1
                invariant
                    j <= inputs_count + 1,
                    o < outputs_count,
                    to == inputs_count + 1 + o,
                    out.inputs_count == inputs_count,
                    out.outputs_count == outputs_count,
                    out.nodes@.len() == n_nodes,
                    n_nodes == inputs_count + 1 + outputs_count,
                    !out.in_species,
                    out.fitness == 0,
                    ledger_wf(innovs@),
                    old(innovs)@.is_prefix_of(innovs@),
                    old_innovs_count <= innovs@.len(),
                    net_wf(out, innovs@),
                    out.links@.len() == o * (inputs_count + 1) + j,
                    forall|k: int|
                        0 <= k < out.links@.len() ==> (#[trigger] out.links@[k]).enabled
                            && link_from(out.links@, innovs@, k) <= inputs_count && inputs_count + 1
                            <= link_to(out.links@, innovs@, k) && (link_to(out.links@, innovs@, k)
                            < to || (link_to(out.links@, innovs@, k) == to && link_from(
                            out.links@,
                            innovs@,
                            k,
                        ) < j)),
                    forall|jj: int, t: int|
                        0 <= jj <= inputs_count && inputs_count + 1 <= t < inputs_count + 1
                            + outputs_count && (t < to || (t == to && jj < j))
                            ==> #[trigger] has_pair(out.links@, innovs@, jj, t),
                    pairs_distinct(out.links@, innovs@),
                    forall|k: int|
                        0 <= k < out.links@.len() ==> old_innovs_count <= (
                        #[trigger] out.links@[k]).innov,
                    forall|k: int, i: int|
                        0 <= k < out.links@.len() && old_innovs_count <= i < (
                        #[trigger] out.links@[k]).innov ==> !((#[trigger] innovs@[i]).from as int
                            == link_from(out.links@, innovs@, k) && innovs@[i].to as int == link_to(
                            out.links@,
                            innovs@,
                            k,
                        )),
                    innovs@.len() <= old(innovs)@.len() + out.links@.len(),
                    forall|i: int|
                        old(innovs)@.len() <= i < innovs@.len() ==> (#[trigger] innovs@[i]).from
                            <= inputs_count && inputs_count + 1 <= innovs@[i].to < inputs_count + 1
                            + outputs_count,
                    (forall|jj: usize, t: usize|
                        jj <= inputs_count && inputs_count + 1 <= t < inputs_count + 1
                            + outputs_count ==> #[trigger] window_has_pair(
                            old(innovs)@,
                            old_innovs_count as int,
                            jj,
                            t,
                        )) ==> innovs@ == old(innovs)@,
                decreases inputs_count + 1 - j,
            {
                let w = conf.init_weight();
                proof {
                    let r = Seq::<int>::new(n_nodes as nat, |i: int| i);
                    assert forall|k: int| 0 <= k < out.links@.len() implies r[#[trigger] link_from(
                        out.links@,
                        innovs@,
                        k,
                    )] < r[link_to(out.links@, innovs@, k)] by {
                        assert(out.links@[k].enabled);
                    }
                    assert(r.len() == n_nodes as int && rank_ok(out.links@, innovs@, r)
                        && r[j as int] < r[to as int]);
                    assert(can_extend(out.links@, innovs@, n_nodes as int, j, to));
                    assert forall|k: int| 0 <= k < out.links@.len() implies !(link_from(
                        out.links@,
                        innovs@,
                        k,
                    ) == j as int && link_to(out.links@, innovs@, k) == to as int) by {
                        assert(out.links@[k].enabled);
                    }
                    assert(!has_pair(out.links@, innovs@, j as int, to as int));
                }
                let ghost prev_links = out.links@;
                let ghost prev_innovs = innovs@;
                out.add_link(innovs, old_innovs_count, w, j, to);
                proof {
                    let (p, l) = choose|p: int, l: Link|
                        {
                            &&& 0 <= p <= prev_links.len()
                            &&& out.links@ == #[trigger] prev_links.insert(p, l)
                            &&& l.weight == w
                            &&& l.enabled
                            &&& l.innov < innovs@.len()
                            &&& innovs@[l.innov as int].from == j
                            &&& innovs@[l.innov as int].to == to
                            &&& old_innovs_count <= l.innov
                            &&& forall|i: int|
                                old_innovs_count <= i < l.innov ==> !((#[trigger] innovs@[i]).from
                                    == j && innovs@[i].to == to)
                        };
                    assert(prev_innovs.is_prefix_of(innovs@));
                    assert forall|k: int| 0 <= k < prev_links.len() implies (
                    #[trigger] prev_links[k]).innov < prev_innovs.len() by {}
                    assert forall|k: int| 0 <= k < out.links@.len() implies (
                    #[trigger] out.links@[k]).enabled && link_from(out.links@, innovs@, k)
                        <= inputs_count && inputs_count + 1 <= link_to(out.links@, innovs@, k) && (
                    link_to(out.links@, innovs@, k) < to || (link_to(out.links@, innovs@, k) == to
                        && link_from(out.links@, innovs@, k) < j + 1)) by {
                        if k < p {
                            assert(out.links@[k] == prev_links[k]);
                            assert(prev_links[k].enabled);
                            assert(prev_links[k].innov < prev_innovs.len());
                            assert(innovs@[prev_links[k].innov as int] == prev_innovs[prev_links[k].innov as int]);
                            assert(link_from(out.links@, innovs@, k) == link_from(
                                prev_links,
                                prev_innovs,
                                k,
                            ));
                            assert(link_to(out.links@, innovs@, k) == link_to(
                                prev_links,
                                prev_innovs,
                                k,
                            ));
                        } else if k == p {
                            assert(out.links@[k] == l);
                        } else {
                            assert(out.links@[k] == prev_links[k - 1]);
                            assert(prev_links[k - 1].enabled);
                            assert(prev_links[k - 1].innov < prev_innovs.len());
                            assert(innovs@[prev_links[k - 1].innov as int] == prev_innovs[prev_links[k
                                - 1].innov as int]);
                            assert(link_from(out.links@, innovs@, k) == link_from(
                                prev_links,
                                prev_innovs,
                                k - 1,
                            ));
                            assert(link_to(out.links@, innovs@, k) == link_to(
                                prev_links,
                                prev_innovs,
                                k - 1,
                            ));
                        }
                    }
                    // pair coverage, including the pair just wired
                    assert(link_from(out.links@, innovs@, p) == j as int);
                    assert(link_to(out.links@, innovs@, p) == to as int);
                    assert(has_pair(out.links@, innovs@, j as int, to as int));
                    assert forall|jj: int, t: int|
                        0 <= jj <= inputs_count && inputs_count + 1 <= t < inputs_count + 1
                            + outputs_count && (t < to || (t == to && jj < j + 1)) implies
                        #[trigger] has_pair(out.links@, innovs@, jj, t) by {
                        if t == to as int && jj == j as int {
                        } else {
                            assert(has_pair(prev_links, prev_innovs, jj, t));
                            lemma_has_pair_insert(
                                prev_links,
                                out.links@,
                                prev_innovs,
                                innovs@,
                                p,
                                l,
                                jj,
                                t,
                            );
                        }
                    }
                    // the fresh pair keeps all pairs distinct
                    assert(!has_pair(
                        prev_links,
                        prev_innovs,
                        innovs@[l.innov as int].from as int,
                        innovs@[l.innov as int].to as int,
                    ));
                    lemma_pairs_distinct_insert(
                        prev_links,
                        out.links@,
                        prev_innovs,
                        innovs@,
                        p,
                        l,
                    );
                    // each link's id is the first window entry for its pair
                    assert forall|k: int, i: int|
                        0 <= k < out.links@.len() && old_innovs_count <= i < (
                        #[trigger] out.links@[k]).innov implies !((#[trigger] innovs@[i]).from
                        as int == link_from(out.links@, innovs@, k) && innovs@[i].to as int
                        == link_to(out.links@, innovs@, k)) by {
                        if k != p {
                            let m = if k < p {
                                k
                            } else {
                                k - 1
                            };
                            assert(out.links@[k] == prev_links[m]);
                            assert(innovs@[prev_links[m].innov as int] == prev_innovs[prev_links[m].innov as int]);
                            assert(link_from(out.links@, innovs@, k) == link_from(
                                prev_links,
                                prev_innovs,
                                m,
                            ));
                            assert(link_to(out.links@, innovs@, k) == link_to(
                                prev_links,
                                prev_innovs,
                                m,
                            ));
                            assert(i < prev_innovs.len());
                            assert(innovs@[i] == prev_innovs[i]);
                        }
                    }
                    if forall|jj: usize, t2: usize|
                        jj <= inputs_count && inputs_count + 1 <= t2 < inputs_count + 1
                            + outputs_count ==> #[trigger] window_has_pair(
                            old(innovs)@,
                            old_innovs_count as int,
                            jj,
                            t2,
                        ) {
                        assert(prev_innovs == old(innovs)@);
                        assert(window_has_pair(prev_innovs, old_innovs_count as int, j, to));
                        assert(innovs@ == prev_innovs);
                    }
                    // the ledger grew by at most the new entry, shaped as wired
                    assert forall|i: int|
                        old(innovs)@.len() <= i < innovs@.len() implies (
                    #[trigger] innovs@[i]).from <= inputs_count && inputs_count + 1 <= innovs@[i].to
                        < inputs_count + 1 + outputs_count by {
                        if i < prev_innovs.len() {
                            assert(innovs@[i] == prev_innovs[i]);
                        } else {
                            assert(innovs@ == prev_innovs.push(
                                Innov { from: j, to, number: prev_innovs.len() as usize },
                            ));
                        }
                    }
                }
                j += 1;
            }
            proof {
                assert((o + 1) * (inputs_count + 1) == o * (inputs_count + 1) + (inputs_count + 1))
                    by (nonlinear_arith);
            }
            o += 1;
        }
        proof {
            assert(outputs_count * (inputs_count + 1) == (inputs_count + 1) * outputs_count)
                by (nonlinear_arith);
        }
        out
    }

    /// Crosses this genome with `net2`: the child inherits this parent's
    /// whole topology; on each gene whose innovation id `net2` also carries,
    /// the child takes `net2`'s weight with even odds, and where the parents'
    /// enabled flags differ the child's flag is re-drawn, enabled with
    /// probability `conf.link_enabling_in_child_prob()`. Genes unique to
    /// `net2` are not inherited.
    pub fn crossover<C: Conf>(&self, net2: &Net, conf: &C) -> (out: Net)
        requires
            links_sorted(self.links@),
            links_sorted(net2.links@),
        ensures
            out.inputs_count == self.inputs_count,
            out.outputs_count == self.outputs_count,
            out.in_species == self.in_species,
            out.fitness == self.fitness,
            out.nodes@.len() == self.nodes@.len(),
            forall|t: int|
                0 <= t < out.nodes@.len() ==> (#[trigger] out.nodes@[t]).index
                    == self.nodes@[t].index && out.nodes@[t].in_link_indices@
                    == self.nodes@[t].in_link_indices@,
            out.links@.len() == self.links@.len(),
            forall|k: int|
                0 <= k < out.links@.len() ==> (#[trigger] out.links@[k]).innov
                    == self.links@[k].innov,
            forall|k: int|
                0 <= k < out.links@.len() ==> !has_innov(net2.links@, self.links@[k].innov)
                    ==> #[trigger] out.links@[k] == self.links@[k],
            forall|k: int|
                0 <= k < out.links@.len() ==> (#[trigger] out.links@[k]).weight
                    == self.links@[k].weight || exists|j: int|
                    0 <= j < net2.links@.len() && (#[trigger] net2.links@[j]).innov
                        == self.links@[k].innov && out.links@[k].weight == net2.links@[j].weight,
            forall|k: int|
                0 <= k < out.links@.len() ==> (#[trigger] out.links@[k]).enabled
                    == self.links@[k].enabled || exists|j: int|
                    0 <= j < net2.links@.len() && (#[trigger] net2.links@[j]).innov
                        == self.links@[k].innov && net2.links@[j].enabled
                        != self.links@[k].enabled,
    {
        let mut out = self.clone();
        let mut new_links: Vec<Link> = Vec::new();
        let mut j: usize = 0;
        let mut i: usize = 0;
        while i < self.links.len()
            invariant
                i <= self.links@.len(),
                j <= net2.links@.len(),
                links_sorted(self.links@),
                links_sorted(net2.links@),
                new_links@.len() == i,
                forall|jj: int|
                    0 <= jj < j && i < self.links@.len() ==> (#[trigger] net2.links@[jj]).innov
                        < self.links@[i as int].innov,
                forall|k: int|
                    0 <= k < i ==> (#[trigger] new_links@[k]).innov == self.links@[k].innov,
                forall|k: int|
                    0 <= k < i ==> !has_innov(net2.links@, self.links@[k].innov)
                        ==> #[trigger] new_links@[k] == self.links@[k],
                forall|k: int|
                    0 <= k < i ==> (#[trigger] new_links@[k]).weight == self.links@[k].weight
                        || exists|jj: int|
                        0 <= jj < net2.links@.len() && (#[trigger] net2.links@[jj]).innov
                            == self.links@[k].innov && new_links@[k].weight
                            == net2.links@[jj].weight,
                forall|k: int|
                    0 <= k < i ==> (#[trigger] new_links@[k]).enabled == self.links@[k].enabled
                        || exists|jj: int|
                        0 <= jj < net2.links@.len() && (#[trigger] net2.links@[jj]).innov
                            == self.links@[k].innov && net2.links@[jj].enabled
                            != self.links@[k].enabled,
            decreases self.links@.len() - i,
        {
            let cur = self.links[i].innov;
            while j < net2.links.len() && net2.links[j].innov < cur
                invariant
                    j <= net2.links@.len(),
                    links_sorted(net2.links@),
                    cur == self.links@[i as int].innov,
                    forall|jj: int|
                        0 <= jj < j ==> (#[trigger] net2.links@[jj]).innov < cur,
                decreases net2.links@.len() - j,
            {
                j += 1;
            }
            let mut l = self.links[i];
            if j < net2.links.len() && net2.links[j].innov == cur {
                if crate::rng::coin(500_000) {
                    l.weight = net2.links[j].weight;
                }
                if l.enabled != net2.links[j].enabled {
                    l.enabled = crate::rng::coin(conf.link_enabling_in_child_prob());
                }
            } else {
                proof {
                    assert forall|jj: int| 0 <= jj < net2.links@.len() implies (
                    #[trigger] net2.links@[jj]).innov != cur by {
                        if jj >= j && j < net2.links@.len() {
                            assert(net2.links@[j as int].innov <= net2.links@[jj].innov);
                        }
                    }
                    assert(!has_innov(net2.links@, cur));
                }
            }
            new_links.push(l);
            proof {
                if i + 1 < self.links@.len() {
                    assert(self.links@[i as int].innov < self.links@[i + 1].innov);
                }
            }
            i += 1;
        }
        out.links = new_links;
        out
    }


    /// Evaluates the network on the driver's inputs (each within the
    /// weight magnitude bound), by repeated passes that compute every node whose
    /// enabled sources are ready — the worklist form of a memoized
    /// depth-first walk. Acyclicity (part of well-formedness) guarantees
    /// every pass makes progress, so all nodes settle and the outputs are
    /// exactly the network's settled values: evaluation is total and a pure
    /// function of the genome, ledger and inputs.
    pub fn eval(&self, inputs: &Vec<i64>, innovs: &Vec<Innov>) -> (out: Vec<i64>)
        requires
            net_wf(*self, innovs@),
            inputs@.len() == self.inputs_count,
            forall|k: int| 0 <= k < inputs@.len() ==> -W_MAX <= #[trigger] inputs@[k] <= W_MAX,
        ensures
            out@.len() == self.outputs_count,
            forall|k: int|
                0 <= k < out@.len() ==> #[trigger] out@[k] as int == value_at(
                    *self,
                    innovs@,
                    inputs@,
                    self.inputs_count + 1 + k,
                ),
            exists|f: nat| #[trigger] outputs_at_fuel(*self, innovs@, inputs@, out@, f),
    {
        let n = self.nodes.len();
        let mut val: Vec<i64> = Vec::new();
        let mut done: Vec<bool> = Vec::new();
        let mut t: usize = 0;
        while t < n
            invariant
                t <= n,
                val@.len() == t,
                done@.len() == t,
                count_false(done@) == t,
                forall|j: int| 0 <= j < t ==> !(#[trigger] done@[j]),
            decreases n - t,
        {
            proof {
                lemma_count_false_push(done@, false);
            }
            val.push(0);
            done.push(false);
            t += 1;
        }
        let mut i: usize = 0;
        while i < self.inputs_count
            invariant
                i <= self.inputs_count,
                self.inputs_count < n,
                n == self.nodes@.len(),
                inputs@.len() == self.inputs_count,
                val@.len() == n,
                done@.len() == n,
                count_false(done@) == n - i,
                forall|j: int| 0 <= j < i ==> #[trigger] done@[j] && val@[j] == inputs@[j],
                forall|j: int| i <= j < n ==> !(#[trigger] done@[j]),
            decreases self.inputs_count - i,
        {
            proof {
                lemma_count_false_update(done@, i as int);
            }
            val[i] = inputs[i];
            done[i] = true;
            i += 1;
        }
        proof {
            lemma_count_false_update(done@, self.inputs_count as int);
        }
        val[self.inputs_count] = FX_ONE;
        done[self.inputs_count] = true;
        let ghost mut fuel: nat = 1;
        proof {
            assert forall|j: int| 0 <= j < n && #[trigger] done@[j] implies node_val(
                *self,
                innovs@,
                inputs@,
                j,
                fuel,
            ) == Some(val@[j] as int) && -W_MAX <= val@[j] <= W_MAX by {
                if j < self.inputs_count {
                    assert(val@[j] == inputs@[j]);
                }
            }
        }
        let links_len = self.links.len();
        let mut undone: usize = n - (self.inputs_count + 1);
        while undone > 0
            invariant
                net_wf(*self, innovs@),
                self.links@.len() <= usize::MAX,
                inputs@.len() == self.inputs_count,
                forall|k: int| 0 <= k < inputs@.len() ==> -W_MAX <= #[trigger] inputs@[k] <= W_MAX,
                n == self.nodes@.len(),
                self.inputs_count + 1 + self.outputs_count <= n,
                val@.len() == n,
                done@.len() == n,
                undone == count_false(done@),
                forall|j: int| 0 <= j <= self.inputs_count ==> #[trigger] done@[j],
                forall|j: int|
                    0 <= j < n && #[trigger] done@[j] ==> node_val(*self, innovs@, inputs@, j, fuel)
                        == Some(val@[j] as int) && -W_MAX <= val@[j] <= W_MAX,
            decreases undone,
        {
            let ghost done0 = done@;
            let ghost undone0 = undone;
            let ghost mut m: int = 0;
            proof {
                lemma_count_false_pos(done@);
                m = lemma_ready_node(*self, innovs@, done@);
            }
            let mut progressed = false;
            let mut u: usize = 0;
            while u < n
                invariant
                    net_wf(*self, innovs@),
                    self.links@.len() <= usize::MAX,
                    done0.len() == n,
                    inputs@.len() == self.inputs_count,
                    forall|k: int|
                        0 <= k < inputs@.len() ==> -W_MAX <= #[trigger] inputs@[k] <= W_MAX,
                    n == self.nodes@.len(),
                    self.inputs_count + 1 + self.outputs_count <= n,
                    u <= n,
                    val@.len() == n,
                    done@.len() == n,
                    undone == count_false(done@),
                    undone <= undone0,
                    progressed ==> undone < undone0,
                    !progressed ==> done@ == done0,
                    forall|j: int| 0 <= j < n && #[trigger] done0[j] ==> done@[j],
                    forall|j: int| 0 <= j <= self.inputs_count ==> #[trigger] done@[j],
                    forall|j: int|
                        0 <= j < n && #[trigger] done@[j] ==> node_val(
                            *self,
                            innovs@,
                            inputs@,
                            j,
                            fuel,
                        ) == Some(val@[j] as int) && -W_MAX <= val@[j] <= W_MAX,
                    0 <= m < n,
                    !done0[m],
                    forall|q: int|
                        0 <= q < in_list(*self, m).len() ==> done0[link_from(
                            self.links@,
                            innovs@,
                            #[trigger] in_list(*self, m)[q] as int,
                        )],
                    !progressed ==> u as int <= m,
                decreases n - u,
            {
                if !done[u] {
                    proof {
                        assert(u > self.inputs_count);
                        lemma_incoming_props(self.links@, innovs@, u as int);
                        assert(in_list(*self, u as int) == incoming(self.links@, innovs@, u as int));
                    }
                    let lst_len = self.nodes[u].in_link_indices.len();
                    let mut acc: i128 = 0;
                    let mut ok = true;
                    let mut q: usize = 0;
                    while q < lst_len
                        invariant
                            net_wf(*self, innovs@),
                            self.links@.len() <= usize::MAX,
                            n == self.nodes@.len(),
                            u < n,
                            val@.len() == n,
                            done@.len() == n,
                            q <= lst_len,
                            lst_len == in_list(*self, u as int).len(),
                            in_list(*self, u as int) == incoming(self.links@, innovs@, u as int),
                            forall|j: int|
                                0 <= j < n && #[trigger] done@[j] ==> node_val(
                                    *self,
                                    innovs@,
                                    inputs@,
                                    j,
                                    fuel,
                                ) == Some(val@[j] as int) && -W_MAX <= val@[j] <= W_MAX,
                            ok ==> in_sum(*self, innovs@, inputs@, u as int, q as int, fuel)
                                == Some(acc as int),
                            -((q as int) * ((W_MAX as int) * (W_MAX as int))) <= acc as int
                                <= (q as int) * ((W_MAX as int) * (W_MAX as int)),
                            (forall|qq: int|
                                0 <= qq < lst_len ==> !self.links@[#[trigger] in_list(
                                    *self,
                                    u as int,
                                )[qq] as int].enabled || done@[link_from(
                                    self.links@,
                                    innovs@,
                                    in_list(*self, u as int)[qq] as int,
                                )]) ==> ok,
                        decreases lst_len - q,
                    {
                        let idx = self.nodes[u].in_link_indices[q];
                        proof {
                            lemma_incoming_props(self.links@, innovs@, u as int);
                            assert(in_list(*self, u as int)[q as int] == idx);
                            assert(idx < self.links@.len());
                            assert(self.links@[idx as int].innov < innovs@.len());
                        }
                        let l = self.links[idx];
                        let ghost acc0 = acc as int;
                        let ghost ok0 = ok;
                        if l.enabled {
                            let src = innovs[l.innov].from;
                            proof {
                                assert(src as int == link_from(self.links@, innovs@, idx as int));
                                assert(0 <= src < n);
                            }
                            if done[src] {
                                proof {
                                    assert(-W_MAX <= l.weight <= W_MAX);
                                    assert(-W_MAX <= val@[src as int] <= W_MAX);
                                    assert(-((W_MAX as int) * (W_MAX as int)) <= (l.weight as int)
                                        * (val@[src as int] as int) <= (W_MAX as int) * (
                                    W_MAX as int)) by (nonlinear_arith)
                                        requires
                                            -W_MAX <= l.weight <= W_MAX,
                                            -W_MAX <= val@[src as int] <= W_MAX,
                                    ;
                                }
                                let term: i128 = (l.weight as i128) * (val[src] as i128);
                                proof {
                                    assert(-((W_MAX as int) * (W_MAX as int)) <= term as int
                                        <= (W_MAX as int) * (W_MAX as int)) by (nonlinear_arith)
                                        requires
                                            term as int == (l.weight as int) * (val@[src as int] as int),
                                            -W_MAX <= l.weight <= W_MAX,
                                            -W_MAX <= val@[src as int] <= W_MAX,
                                    ;
                                    assert((q as int + 1) * ((W_MAX as int) * (W_MAX as int))
                                        == (q as int) * ((W_MAX as int) * (W_MAX as int))
                                        + (W_MAX as int) * (W_MAX as int)) by (nonlinear_arith);
                                    assert((q as int) * ((W_MAX as int) * (W_MAX as int))
                                        <= (usize::MAX as int) * ((W_MAX as int) * (W_MAX as int)))
                                        by (nonlinear_arith)
                                        requires
                                            0 <= q as int <= usize::MAX as int,
                                    ;
                                    assert((usize::MAX as int) * ((W_MAX as int) * (W_MAX as int))
                                        + (W_MAX as int) * (W_MAX as int) < i128::MAX as int)
                                        by (nonlinear_arith);
                                    assert(-((usize::MAX as int) * ((W_MAX as int) * (
                                    W_MAX as int))) - (W_MAX as int) * (W_MAX as int)
                                        > i128::MIN as int) by (nonlinear_arith);
                                }
                                acc = acc + term;
                                proof {
                                    if ok0 {
                                        assert(node_val(*self, innovs@, inputs@, src as int, fuel)
                                            == Some(val@[src as int] as int));
                                        assert(in_sum(
                                            *self,
                                            innovs@,
                                            inputs@,
                                            u as int,
                                            q as int + 1,
                                            fuel,
                                        ) == Some(acc0 + (l.weight as int) * (val@[src as int] as int)));
                                    }
                                }
                            } else {
                                proof {
                                    assert(self.links@[in_list(*self, u as int)[q as int] as int].enabled);
                                    assert(!done@[link_from(
                                        self.links@,
                                        innovs@,
                                        in_list(*self, u as int)[q as int] as int,
                                    )]);
                                }
                                ok = false;
                            }
                        } else {
                            proof {
                                if ok0 {
                                    assert(in_sum(
                                        *self,
                                        innovs@,
                                        inputs@,
                                        u as int,
                                        q as int + 1,
                                        fuel,
                                    ) == in_sum(*self, innovs@, inputs@, u as int, q as int, fuel));
                                }
                            }
                        }
                        proof {
                            assert((q as int + 1) * ((W_MAX as int) * (W_MAX as int)) == (
                            q as int) * ((W_MAX as int) * (W_MAX as int)) + (W_MAX as int) * (
                            W_MAX as int)) by (nonlinear_arith);
                        }
                        q += 1;
                    }
                    proof {
                        if u as int == m && !progressed {
                            assert forall|qq: int| 0 <= qq < lst_len implies !self.links@[
                                #[trigger] in_list(*self, u as int)[qq] as int].enabled || done@[
                                link_from(
                                    self.links@,
                                    innovs@,
                                    in_list(*self, u as int)[qq] as int,
                                )] by {
                                assert(done0[link_from(
                                    self.links@,
                                    innovs@,
                                    in_list(*self, m)[qq] as int,
                                )]);
                            }
                            assert(ok);
                        }
                    }
                    if ok {
                        proof {
                            assert((usize::MAX as int) * ((W_MAX as int) * (W_MAX as int))
                                < i128::MAX as int) by (nonlinear_arith);
                            assert(acc != i128::MIN);
                        }
                        let v = Node::activate(acc);
                        proof {
                            assert(in_sum(*self, innovs@, inputs@, u as int, lst_len as int, fuel)
                                == Some(acc as int));
                            assert(node_val(*self, innovs@, inputs@, u as int, fuel + 1) == Some(
                                activate_spec(acc as int),
                            ));
                        }
                        let ghost pre_done = done@;
                        val[u] = v;
                        done[u] = true;
                        proof {
                            lemma_count_false_update(pre_done, u as int);
                            assert forall|j: int| 0 <= j < n && #[trigger] done@[j] implies
                                node_val(*self, innovs@, inputs@, j, fuel + 1) == Some(
                                val@[j] as int,
                            ) && -W_MAX <= val@[j] <= W_MAX by {
                                if j != u as int {
                                    assert(pre_done[j]);
                                    lemma_val_mono(*self, innovs@, inputs@, j, fuel, fuel + 1);
                                }
                            }
                            fuel = fuel + 1;
                            lemma_count_false_pos(done@);
                            assert(undone > 0);
                        }
                        undone = undone - 1;
                        progressed = true;
                    }
                }
                u += 1;
            }
        }
        proof {
            lemma_count_false_pos(done@);
        }
        let mut out: Vec<i64> = Vec::new();
        let mut k: usize = 0;
        while k < self.outputs_count
            invariant
                k <= self.outputs_count,
                n == self.nodes@.len(),
                self.inputs_count + 1 + self.outputs_count <= n,
                val@.len() == n,
                done@.len() == n,
                forall|j: int| 0 <= j < n ==> #[trigger] done@[j],
                forall|j: int|
                    0 <= j < n && #[trigger] done@[j] ==> node_val(*self, innovs@, inputs@, j, fuel)
                        == Some(val@[j] as int),
                out@.len() == k,
                forall|kk: int|
                    0 <= kk < k ==> #[trigger] out@[kk] as int == value_at(
                        *self,
                        innovs@,
                        inputs@,
                        self.inputs_count + 1 + kk,
                    ),
            decreases self.outputs_count - k,
        {
            let idx = self.inputs_count + 1 + k;
            proof {
                assert(done@[idx as int]);
                assert(node_val(*self, innovs@, inputs@, idx as int, fuel) == Some(
                    val@[idx as int] as int,
                ));
                lemma_value_at_of(*self, innovs@, inputs@, idx as int, fuel);
                assert(value_at(*self, innovs@, inputs@, idx as int) == val@[idx as int] as int);
            }
            out.push(val[idx]);
            proof {
                assert(out@[k as int] == val@[idx as int]);
                assert(out@[k as int] as int == value_at(
                    *self,
                    innovs@,
                    inputs@,
                    self.inputs_count + 1 + k as int,
                ));
            }
            k += 1;
        }
        proof {
            let f0 = fuel;
            assert forall|k2: int| 0 <= k2 < out@.len() implies #[trigger] node_val(
                *self,
                innovs@,
                inputs@,
                self.inputs_count + 1 + k2,
                f0,
            ) == Some(out@[k2] as int) by {
                assert(done@[self.inputs_count + 1 + k2]);
                assert(node_val(
                    *self,
                    innovs@,
                    inputs@,
                    self.inputs_count + 1 + k2,
                    fuel,
                ) == Some(val@[self.inputs_count + 1 + k2] as int));
                assert(out@[k2] as int == value_at(
                    *self,
                    innovs@,
                    inputs@,
                    self.inputs_count + 1 + k2,
                ));
                lemma_value_at_of(*self, innovs@, inputs@, self.inputs_count + 1 + k2, f0);
            }
            assert(outputs_at_fuel(*self, innovs@, inputs@, out@, f0));
        }
        out
    }


    /// Checks whether adding a link `from -> to` would close a cycle, by a
    /// forward sweep from `to` over every link, enabled or not: the sweep
    /// follows all links so that later re-enabling or splitting a disabled
    /// link stays safe. When it answers no, the visited set is closed under
    /// link successors and excludes `from`, which yields a rank witness for
    /// the extended graph: ranks inside the visited set are lifted above
    /// every rank outside it.
    pub fn creates_cycles(&self, from: usize, to: usize, innovs: &Vec<Innov>) -> (r: bool)
        requires
            net_wf(*self, innovs@),
            from < self.nodes@.len(),
            to < self.nodes@.len(),
        ensures
            !r ==> can_extend(
                self.links@,
                innovs@,
                self.nodes@.len() as int,
                from,
                to,
            ),
            r ==> !can_extend(
                self.links@,
                innovs@,
                self.nodes@.len() as int,
                from,
                to,
            ),
    {
        let n = self.nodes.len();
        if from == to {
            proof {
                if can_extend(self.links@, innovs@, n as int, from, to) {
                    let rk = choose|rk: Seq<int>|
                        rk.len() == n as int && rank_ok(self.links@, innovs@, rk) && rk[from as int]
                            < rk[to as int];
                    assert(false);
                }
            }
            return true;
        }
        let mut visited: Vec<bool> = Vec::new();
        let mut t: usize = 0;
        while t < n
            invariant
                t <= n,
                visited@.len() == t,
                forall|j: int| 0 <= j < t ==> !(#[trigger] visited@[j]),
            decreases n - t,
        {
            visited.push(false);
            t += 1;
        }
        visited[to] = true;
        proof {
            assert forall|rk: Seq<int>|
                rk.len() == n as int && #[trigger] rank_ok(self.links@, innovs@, rk) implies (
            forall|x: int|
                0 <= x < n && #[trigger] visited@[x] ==> x == to as int || rk[to as int]
                    < rk[x]) by {}
        }
        let mut newly: usize = 1;
        while newly > 0
            invariant
                net_wf(*self, innovs@),
                forall|rk: Seq<int>|
                    rk.len() == n as int && #[trigger] rank_ok(self.links@, innovs@, rk) ==> (
                    forall|x: int|
                        0 <= x < n && #[trigger] visited@[x] ==> x == to as int || rk[to as int]
                            < rk[x]),
                n == self.nodes@.len(),
                from < n,
                to < n,
                from != to,
                visited@.len() == n,
                visited@[to as int],
                !visited@[from as int],
                newly == 0 ==> forall|k: int|
                    0 <= k < self.links@.len() ==> !visited@[#[trigger] link_from(
                        self.links@,
                        innovs@,
                        k,
                    )] || visited@[link_to(self.links@, innovs@, k)],
            decreases count_false(visited@) + if newly > 0 {
                1int
            } else {
                0int
            },
        {
            let ghost v0 = visited@;
            let ghost cf0 = count_false(visited@);
            proof {
                lemma_count_false_pos(visited@);
            }
            newly = 0;
            let mut k: usize = 0;
            while k < self.links.len()
                invariant
                    net_wf(*self, innovs@),
                    forall|rk: Seq<int>|
                        rk.len() == n as int && #[trigger] rank_ok(self.links@, innovs@, rk) ==> (
                        forall|x: int|
                            0 <= x < n && #[trigger] visited@[x] ==> x == to as int
                                || rk[to as int] < rk[x]),
                    n == self.nodes@.len(),
                    from < n,
                    to < n,
                    from != to,
                    k <= self.links@.len(),
                    visited@.len() == n,
                    visited@[to as int],
                    !visited@[from as int],
                    v0.len() == n,
                    count_false(visited@) == cf0 - newly,
                    newly <= cf0,
                    cf0 <= n,
                    newly == 0 ==> visited@ == v0,
                    newly == 0 ==> forall|kk: int|
                        0 <= kk < k ==> !visited@[#[trigger] link_from(
                            self.links@,
                            innovs@,
                            kk,
                        )] || visited@[link_to(self.links@, innovs@, kk)],
                decreases self.links@.len() - k,
            {
                let l = self.links[k];
                proof {
                    assert(self.links@[k as int].innov < innovs@.len());
                }
                let lf = innovs[l.innov].from;
                let lt = innovs[l.innov].to;
                proof {
                    assert(lf as int == link_from(self.links@, innovs@, k as int));
                    assert(lt as int == link_to(self.links@, innovs@, k as int));
                    assert(lf < n && lt < n);
                }
                if visited[lf] && !visited[lt] {
                    if lt == from {
                        proof {
                            assert(visited@[lf as int]);
                            if can_extend(self.links@, innovs@, n as int, from, to) {
                                let rk = choose|rk: Seq<int>|
                                    rk.len() == n as int && rank_ok(self.links@, innovs@, rk)
                                        && rk[from as int] < rk[to as int];
                                assert(rk[link_from(self.links@, innovs@, k as int)] < rk[link_to(
                                    self.links@,
                                    innovs@,
                                    k as int,
                                )]);
                                assert(false);
                            }
                        }
                        return true;
                    }
                    proof {
                        lemma_count_false_update(visited@, lt as int);
                        lemma_count_false_pos(visited@.update(lt as int, true));
                    }
                    let ghost pre_vis = visited@;
                    visited[lt] = true;
                    newly += 1;
                    proof {
                        assert forall|rk: Seq<int>|
                            rk.len() == n as int && #[trigger] rank_ok(
                                self.links@,
                                innovs@,
                                rk,
                            ) implies (forall|x: int|
                            0 <= x < n && #[trigger] visited@[x] ==> x == to as int
                                || rk[to as int] < rk[x]) by {
                            assert forall|x: int| 0 <= x < n && #[trigger] visited@[x] implies x
                                == to as int || rk[to as int] < rk[x] by {
                                if x == lt as int {
                                    assert(pre_vis[lf as int]);
                                    assert(rk[link_from(self.links@, innovs@, k as int)] < rk[
                                        link_to(self.links@, innovs@, k as int)]);
                                } else {
                                    assert(pre_vis[x]);
                                }
                            }
                        }
                    }
                }
                k += 1;
            }
        }
        proof {
            let r0 = choose|r: Seq<int>|
                r.len() == n as int && rank_ok(self.links@, innovs@, r);
            let b = lemma_seq_bounds(r0);
            let big = b.1 - b.0 + 1;
            let vis = visited@;
            let r1 = Seq::<int>::new(n as nat, |x: int| r0[x] + if vis[x] {
                big
            } else {
                0int
            });
            assert forall|k: int| 0 <= k < self.links@.len() implies r1[#[trigger] link_from(
                self.links@,
                innovs@,
                k,
            )] < r1[link_to(self.links@, innovs@, k)] by {
                let x = link_from(self.links@, innovs@, k);
                let y = link_to(self.links@, innovs@, k);
                assert(0 <= x < n && 0 <= y < n);
                assert(r0[x] < r0[y]);
                assert(!vis[x] || vis[y]);
                assert(b.0 <= r0[x] <= b.1 && b.0 <= r0[y] <= b.1);
            }
            assert(r1.len() == n as int && rank_ok(self.links@, innovs@, r1));
            assert(r1[from as int] == r0[from as int]);
            assert(r1[to as int] == r0[to as int] + big);
            assert(r1[from as int] < r1[to as int]);
            assert(can_extend(self.links@, innovs@, n as int, from, to));
        }
        false
    }

    /// Mutates by adding a link: picks a random source (never an output)
    /// and a random destination (never an input, never the source), rejects
    /// candidates that would close a cycle and retries, up to twelve
    /// attempts. When the chosen pair is already linked, a disabled link is
    /// re-enabled with a fresh weight instead of duplicating the gene;
    /// otherwise a new link is added through the ledger.
    pub fn mutate_link<C: Conf>(
        &mut self,
        innovs: &mut Vec<Innov>,
        old_innovs_count: usize,
        conf: &C,
    )
        requires
            net_wf(*old(self), old(innovs)@),
            ledger_wf(old(innovs)@),
            old_innovs_count <= old(innovs)@.len(),
        ensures
            net_wf(*final(self), final(innovs)@),
            ledger_wf(final(innovs)@),
            old(innovs)@.is_prefix_of(final(innovs)@),
            final(self).inputs_count == old(self).inputs_count,
            final(self).outputs_count == old(self).outputs_count,
            final(self).in_species == old(self).in_species,
            final(self).fitness == old(self).fitness,
            final(self).nodes@.len() == old(self).nodes@.len(),
            old(self).links@.len() <= final(self).links@.len() <= old(self).links@.len() + 1,
            link_mutation_outcome(*old(self), old(innovs)@, *final(self), final(innovs)@, old_innovs_count),
    {
        let n = self.nodes.len();
        proof {
            assert(innovs@.subrange(0, old(innovs)@.len() as int) =~= old(innovs)@);
        }
        let mut attempts: usize = 0;
        while attempts < 12
            invariant
                net_wf(*self, innovs@),
                ledger_wf(innovs@),
                old_innovs_count <= innovs@.len(),
                old(innovs)@.is_prefix_of(innovs@),
                n == self.nodes@.len(),
                self.inputs_count == old(self).inputs_count,
                self.outputs_count == old(self).outputs_count,
                self.in_species == old(self).in_species,
                self.fitness == old(self).fitness,
                self.nodes@.len() == old(self).nodes@.len(),
                old(self).links@.len() <= self.links@.len() <= old(self).links@.len() + 1,
                innovs@ == old(innovs)@,
                self.links@ == old(self).links@,
            decreases 12 - attempts,
        {
            let draw = crate::rng::rand_below((n - self.outputs_count) as u64) as usize;
            let from = if draw < self.inputs_count + 1 {
                draw
            } else {
                draw + self.outputs_count
            };
            let to = if from >= self.inputs_count {
                let mut cand = self.inputs_count + crate::rng::rand_below(
                    (n - 1 - self.inputs_count) as u64,
                ) as usize;
                if from <= cand {
                    cand += 1;
                }
                cand
            } else {
                self.inputs_count + crate::rng::rand_below((n - self.inputs_count) as u64) as usize
            };
            proof {
                assert(from <= self.inputs_count || from >= self.inputs_count + 1
                    + self.outputs_count);
                assert(from < n);
                assert(self.inputs_count <= to && to < n);
                assert(from != to);
            }
            if !self.creates_cycles(from, to, innovs) {
                // the pair may already be linked: then re-enable rather than duplicate
                let mut k: usize = 0;
                while k < self.links.len()
                    invariant
                        net_wf(*self, innovs@),
                        ledger_wf(innovs@),
                        old_innovs_count <= innovs@.len(),
                        old(innovs)@.is_prefix_of(innovs@),
                        innovs@ == old(innovs)@,
                        n == self.nodes@.len(),
                        self.inputs_count == old(self).inputs_count,
                        self.outputs_count == old(self).outputs_count,
                        self.in_species == old(self).in_species,
                        self.fitness == old(self).fitness,
                        self.nodes@.len() == old(self).nodes@.len(),
                        self.links@ == old(self).links@,
                        from < n,
                        to < n,
                        from <= self.inputs_count || from >= self.inputs_count + 1
                            + self.outputs_count,
                        self.inputs_count <= to,
                        from != to,
                        k <= self.links@.len(),
                        forall|kk: int|
                            0 <= kk < k ==> !(#[trigger] link_from(self.links@, innovs@, kk)
                                == from as int && link_to(self.links@, innovs@, kk) == to as int),
                    decreases self.links@.len() - k,
                {
                    let l = self.links[k];
                    proof {
                        assert(self.links@[k as int].innov < innovs@.len());
                    }
                    if innovs[l.innov].from == from && innovs[l.innov].to == to {
                        if !l.enabled {
                            let w = conf.init_weight();
                            let ghost pre = self.links@;
                            self.links[k] = Link { innov: l.innov, weight: w, enabled: true };
                            proof {
                                assert(pre == old(self).links@);
                                assert(pre[k as int].innov < innovs@.len());
                                assert(innovs@[pre[k as int].innov as int].from == from);
                                assert(innovs@[pre[k as int].innov as int].to == to);
                                assert(self.links@ == old(self).links@.update(
                                    k as int,
                                    self.links@[k as int],
                                ));
                                assert(!old(self).links@[k as int].enabled);
                                assert(self.links@[k as int].enabled);
                                assert(self.links@[k as int].innov == old(
                                    self,
                                ).links@[k as int].innov);
                                assert forall|kk: int| 0 <= kk < self.links@.len() implies (
                                #[trigger] self.links@[kk]).innov == pre[kk].innov by {}
                                assert forall|t: int| 0 <= t < self.nodes@.len() implies (
                                #[trigger] self.nodes@[t]).index == t
                                    && self.nodes@[t].in_link_indices@ == incoming(
                                    self.links@,
                                    innovs@,
                                    t,
                                ) by {
                                    lemma_incoming_same_innovs(self.links@, pre, innovs@, t);
                                }
                                let r0 = choose|r: Seq<int>|
                                    r.len() == n as int && rank_ok(pre, innovs@, r);
                                assert forall|kk: int| 0 <= kk < self.links@.len() implies r0[
                                #[trigger] link_from(self.links@, innovs@, kk)] < r0[link_to(
                                    self.links@,
                                    innovs@,
                                    kk,
                                )] by {
                                    assert(link_from(self.links@, innovs@, kk) == link_from(
                                        pre,
                                        innovs@,
                                        kk,
                                    ));
                                    assert(link_to(self.links@, innovs@, kk) == link_to(
                                        pre,
                                        innovs@,
                                        kk,
                                    ));
                                    assert(r0[link_from(pre, innovs@, kk)] < r0[link_to(
                                        pre,
                                        innovs@,
                                        kk,
                                    )]);
                                }
                                assert(rank_ok(self.links@, innovs@, r0));
                                assert(acyclic(self.links@, innovs@, n as int));
                                assert forall|kk: int| 0 <= kk < self.links@.len() implies {
                                    &&& (#[trigger] self.links@[kk]).innov < innovs@.len()
                                    &&& 0 <= link_from(self.links@, innovs@, kk) < n as int
                                    &&& 0 <= link_to(self.links@, innovs@, kk) < n as int
                                    &&& -W_MAX <= self.links@[kk].weight <= W_MAX
                                } by {
                                    assert(pre[kk].innov < innovs@.len());
                                    assert(link_from(self.links@, innovs@, kk) == link_from(
                                        pre,
                                        innovs@,
                                        kk,
                                    ));
                                    assert(link_to(self.links@, innovs@, kk) == link_to(
                                        pre,
                                        innovs@,
                                        kk,
                                    ));
                                }
                            }
                        }
                        return ;
                    }
                    k += 1;
                }
                proof {
                    assert(!has_pair(self.links@, innovs@, from as int, to as int));
                }
                let ghost pre_l = self.links@;
                let ghost pre_i = innovs@;
                let w = conf.init_weight();
                self.add_link(innovs, old_innovs_count, w, from, to);
                proof {
                    let (p, l) = choose|p: int, l: Link|
                        {
                            &&& 0 <= p <= pre_l.len()
                            &&& self.links@ == #[trigger] pre_l.insert(p, l)
                            &&& l.weight == w
                            &&& l.enabled
                            &&& l.innov < innovs@.len()
                            &&& innovs@[l.innov as int].from == from
                            &&& innovs@[l.innov as int].to == to
                            &&& old_innovs_count <= l.innov
                        };
                    assert(pre_l == old(self).links@);
                    assert(pre_i == old(innovs)@);
                    assert(!has_pair(
                        old(self).links@,
                        old(innovs)@,
                        innovs@[l.innov as int].from as int,
                        innovs@[l.innov as int].to as int,
                    ));
                }
                return ;
            }
            attempts += 1;
        }
    }


    /// Mutates by adding a node: a uniformly random link is split by a new
    /// hidden node; the incoming half carries weight one (an identity
    /// pass-through) and the outgoing half the split link's weight, so the
    /// split link's net function is preserved at creation time. The split
    /// link itself stays in the genome, enabled or disabled as it was.
    #[verifier::rlimit(100)]
    pub fn mutate_node(&mut self, innovs: &mut Vec<Innov>, old_innovs_count: usize)
        requires
            net_wf(*old(self), old(innovs)@),
            ledger_wf(old(innovs)@),
            old_innovs_count <= old(innovs)@.len(),
            old(self).links@.len() >= 1,
            old(self).nodes@.len() + 1 < usize::MAX,
        ensures
            net_wf(*final(self), final(innovs)@),
            ledger_wf(final(innovs)@),
            old(innovs)@.is_prefix_of(final(innovs)@),
            final(self).inputs_count == old(self).inputs_count,
            final(self).outputs_count == old(self).outputs_count,
            final(self).in_species == old(self).in_species,
            final(self).fitness == old(self).fitness,
            final(self).nodes@.len() == old(self).nodes@.len() + 1,
            final(self).links@.len() == old(self).links@.len() + 2,
            ids_from(old(self).links@, final(self).links@, old_innovs_count),
            forall|k: int|
                0 <= k < old(self).links@.len() ==> final(self).links@.contains(
                    #[trigger] old(self).links@[k],
                ),
            exists|sk: int|
                0 <= sk < old(self).links@.len() && has_enabled_link(
                    final(self).links@,
                    final(innovs)@,
                    #[trigger] link_from(old(self).links@, old(innovs)@, sk),
                    old(self).nodes@.len() as int,
                    1_000_000,
                ) && has_enabled_link(
                    final(self).links@,
                    final(innovs)@,
                    old(self).nodes@.len() as int,
                    link_to(old(self).links@, old(innovs)@, sk),
                    old(self).links@[sk].weight,
                ),
    {
        let n = self.nodes.len();
        let idx = crate::rng::rand_below(self.links.len() as u64) as usize;
        let l = self.links[idx];
        proof {
            assert(self.links@[idx as int].innov < innovs@.len());
        }
        let from = innovs[l.innov].from;
        let to = innovs[l.innov].to;
        let weight = l.weight;
        proof {
            assert(from as int == link_from(self.links@, innovs@, idx as int));
            assert(to as int == link_to(self.links@, innovs@, idx as int));
            assert(from < n && to < n);
        }
        let new_index = n;
        let ghost pre_links = self.links@;
        self.nodes.push(Node { in_link_indices: Vec::new(), index: new_index });
        proof {
            // the fresh node has no incoming links, every old list is unchanged,
            // and a doubled rank witness leaves room to slot the new node in
            assert forall|k: int| 0 <= k < self.links@.len() implies #[trigger] link_to(
                self.links@,
                innovs@,
                k,
            ) != new_index as int by {}
            lemma_incoming_empty(self.links@, innovs@, new_index as int);
            assert forall|t: int| 0 <= t < self.nodes@.len() implies (
            #[trigger] self.nodes@[t]).index == t && self.nodes@[t].in_link_indices@ == incoming(
                self.links@,
                innovs@,
                t,
            ) by {}
            let r0 = choose|r: Seq<int>|
                r.len() == n as int && rank_ok(self.links@, innovs@, r);
            let r1 = Seq::<int>::new((n + 1) as nat, |x: int| if x == n as int {
                2 * r0[from as int] + 1
            } else {
                2 * r0[x]
            });
            assert forall|k: int| 0 <= k < self.links@.len() implies r1[#[trigger] link_from(
                self.links@,
                innovs@,
                k,
            )] < r1[link_to(self.links@, innovs@, k)] by {
                let x = link_from(self.links@, innovs@, k);
                let y = link_to(self.links@, innovs@, k);
                assert(0 <= x < n && 0 <= y < n);
                assert(r0[x] < r0[y]);
            }
            assert(rank_ok(self.links@, innovs@, r1));
            assert(r1.len() == (n + 1) as int);
            assert(acyclic(self.links@, innovs@, (n + 1) as int));
            assert(r1[from as int] == 2 * r0[from as int]);
            assert(r1[from as int] < r1[new_index as int]);
            assert(can_extend(self.links@, innovs@, (n + 1) as int, from, new_index));
            assert forall|k: int| 0 <= k < self.links@.len() implies !(#[trigger] link_from(
                self.links@,
                innovs@,
                k,
            ) == from as int && link_to(self.links@, innovs@, k) == new_index as int) by {}
            assert(!has_pair(self.links@, innovs@, from as int, new_index as int));
        }
        let ghost mid_innovs = innovs@;
        self.add_link(innovs, old_innovs_count, 1_000_000, from, new_index);
        proof {
            // re-derive a witness for the second half from the first insertion
            let (p, l1) = choose|p: int, l1: Link|
                {
                    &&& 0 <= p <= pre_links.len()
                    &&& self.links@ == #[trigger] pre_links.insert(p, l1)
                    &&& l1.weight == 1_000_000
                    &&& l1.enabled
                    &&& l1.innov < innovs@.len()
                    &&& innovs@[l1.innov as int].from == from
                    &&& innovs@[l1.innov as int].to == new_index
                };
            let r0 = choose|r: Seq<int>|
                r.len() == n as int && rank_ok(pre_links, mid_innovs, r);
            let r1 = Seq::<int>::new((n + 1) as nat, |x: int| if x == n as int {
                2 * r0[from as int] + 1
            } else {
                2 * r0[x]
            });
            assert forall|k: int| 0 <= k < self.links@.len() implies r1[#[trigger] link_from(
                self.links@,
                innovs@,
                k,
            )] < r1[link_to(self.links@, innovs@, k)] by {
                if k < p {
                    assert(self.links@[k] == pre_links[k]);
                    assert(pre_links[k].innov < mid_innovs.len());
                    assert(innovs@[pre_links[k].innov as int] == mid_innovs[pre_links[k].innov as int]);
                    let x = link_from(pre_links, mid_innovs, k);
                    let y = link_to(pre_links, mid_innovs, k);
                    assert(link_from(self.links@, innovs@, k) == x);
                    assert(link_to(self.links@, innovs@, k) == y);
                    assert(0 <= x < n && 0 <= y < n);
                    assert(r0[x] < r0[y]);
                } else if k == p {
                    assert(link_from(self.links@, innovs@, k) == from as int);
                    assert(link_to(self.links@, innovs@, k) == new_index as int);
                } else {
                    assert(self.links@[k] == pre_links[k - 1]);
                    assert(pre_links[k - 1].innov < mid_innovs.len());
                    assert(innovs@[pre_links[k - 1].innov as int] == mid_innovs[pre_links[k
                        - 1].innov as int]);
                    let x = link_from(pre_links, mid_innovs, k - 1);
                    let y = link_to(pre_links, mid_innovs, k - 1);
                    assert(link_from(self.links@, innovs@, k) == x);
                    assert(link_to(self.links@, innovs@, k) == y);
                    assert(0 <= x < n && 0 <= y < n);
                    assert(r0[x] < r0[y]);
                }
            }
            assert(r1[new_index as int] == 2 * r0[from as int] + 1);
            assert(idx < p ==> self.links@[idx as int] == pre_links[idx as int]);
            assert(r0[from as int] < r0[to as int]);
            assert(r1[to as int] == 2 * r0[to as int]);
            assert(r1[new_index as int] < r1[to as int]);
            assert(r1.len() == (n + 1) as int && rank_ok(self.links@, innovs@, r1));
            assert(can_extend(self.links@, innovs@, (n + 1) as int, new_index, to));
            assert forall|k: int| 0 <= k < self.links@.len() implies !(#[trigger] link_from(
                self.links@,
                innovs@,
                k,
            ) == new_index as int && link_to(self.links@, innovs@, k) == to as int) by {
                if k < p {
                    assert(self.links@[k] == pre_links[k]);
                    assert(innovs@[pre_links[k].innov as int] == mid_innovs[pre_links[k].innov as int]);
                    assert(link_from(self.links@, innovs@, k) == link_from(
                        pre_links,
                        mid_innovs,
                        k,
                    ));
                    assert(link_from(pre_links, mid_innovs, k) < n as int);
                } else if k == p {
                    assert(link_from(self.links@, innovs@, k) == from as int);
                    assert(from < n);
                } else {
                    assert(self.links@[k] == pre_links[k - 1]);
                    assert(innovs@[pre_links[k - 1].innov as int] == mid_innovs[pre_links[k
                        - 1].innov as int]);
                    assert(link_from(self.links@, innovs@, k) == link_from(
                        pre_links,
                        mid_innovs,
                        k - 1,
                    ));
                    assert(link_from(pre_links, mid_innovs, k - 1) < n as int);
                }
            }
            assert(!has_pair(self.links@, innovs@, new_index as int, to as int));
        }
        let ghost links1 = self.links@;
        let ghost innovs1 = innovs@;
        self.add_link(innovs, old_innovs_count, weight, new_index, to);
        proof {
            let (p1, l1) = choose|p1: int, l1: Link|
                {
                    &&& 0 <= p1 <= pre_links.len()
                    &&& links1 == #[trigger] pre_links.insert(p1, l1)
                    &&& l1.weight == 1_000_000
                    &&& l1.enabled
                    &&& l1.innov < innovs1.len()
                    &&& innovs1[l1.innov as int].from == from
                    &&& innovs1[l1.innov as int].to == new_index
                    &&& old_innovs_count <= l1.innov
                };
            let (p2, l2) = choose|p2: int, l2: Link|
                {
                    &&& 0 <= p2 <= links1.len()
                    &&& self.links@ == #[trigger] links1.insert(p2, l2)
                    &&& l2.weight == weight
                    &&& l2.enabled
                    &&& l2.innov < innovs@.len()
                    &&& innovs@[l2.innov as int].from == new_index
                    &&& innovs@[l2.innov as int].to == to
                    &&& old_innovs_count <= l2.innov
                };
            assert(self.links@[p2] == l2);
            assert(link_from(self.links@, innovs@, p2) == new_index as int);
            assert(link_to(self.links@, innovs@, p2) == to as int);
            assert(has_enabled_link(self.links@, innovs@, new_index as int, to as int, weight));
            let q1 = if p1 < p2 {
                p1
            } else {
                p1 + 1
            };
            assert(self.links@[q1] == links1[p1]);
            assert(links1[p1] == l1);
            assert(innovs@[l1.innov as int] == innovs1[l1.innov as int]);
            assert(link_from(self.links@, innovs@, q1) == from as int);
            assert(link_to(self.links@, innovs@, q1) == new_index as int);
            assert(has_enabled_link(
                self.links@,
                innovs@,
                from as int,
                new_index as int,
                1_000_000,
            ));
            assert(from as int == link_from(old(self).links@, old(innovs)@, idx as int));
            assert(to as int == link_to(old(self).links@, old(innovs)@, idx as int));
            assert(weight == old(self).links@[idx as int].weight);
            lemma_double_insert_provenance(
                pre_links,
                links1,
                self.links@,
                p1,
                l1,
                p2,
                l2,
                old_innovs_count,
            );
        }
    }

    /// Applies each mutation operator independently, in order: link
    /// addition, node addition, weight mutation over every link, and the
    /// disabling of one randomly chosen enabled link, with a bounded number
    /// of retries. Each operator fires with its configured probability.
    pub fn mutate<C: Conf>(&mut self, innovs: &mut Vec<Innov>, old_innovs_count: usize, conf: &C)
        requires
            net_wf(*old(self), old(innovs)@),
            ledger_wf(old(innovs)@),
            old_innovs_count <= old(innovs)@.len(),
        ensures
            net_wf(*final(self), final(innovs)@),
            ledger_wf(final(innovs)@),
            old(innovs)@.is_prefix_of(final(innovs)@),
            final(self).inputs_count == old(self).inputs_count,
            final(self).outputs_count == old(self).outputs_count,
            final(self).in_species == old(self).in_species,
            final(self).fitness == old(self).fitness,
            old(self).nodes@.len() <= final(self).nodes@.len() <= old(self).nodes@.len() + 1,
            old(self).links@.len() <= final(self).links@.len() <= old(self).links@.len() + 3,
            mutation_outcome(
                *old(self),
                old(innovs)@,
                *final(self),
                final(innovs)@,
                old_innovs_count,
            ),
            ids_from(old(self).links@, final(self).links@, old_innovs_count),
    {
        proof {
            assert(innovs@.subrange(0, old(innovs)@.len() as int) =~= old(innovs)@);
        }
        if crate::rng::coin(conf.get_link_addition_mutation_prob()) {
            self.mutate_link(innovs, old_innovs_count, conf);
        }
        let ghost m1 = *self;
        let ghost i1 = innovs@;
        proof {
            assert(link_mutation_outcome(*old(self), old(innovs)@, m1, i1, old_innovs_count));
            assert(i1.subrange(0, i1.len() as int) =~= i1);
            assert(i1.is_prefix_of(i1));
        }
        if crate::rng::coin(conf.get_node_addition_mutation_prob()) {
            // a genome at the node-index limit cannot be split further
            if self.links.len() >= 1 && self.nodes.len() < usize::MAX - 1 {
                self.mutate_node(innovs, old_innovs_count);
            }
        }
        let ghost m2 = *self;
        let ghost i2 = innovs@;
        proof {
            assert(node_mutation_outcome(m1, i1, m2, i2, old_innovs_count));
        }
        if crate::rng::coin(conf.get_weight_mutation_prob()) {
            let ghost pre = self.links@;
            let mut k: usize = 0;
            while k < self.links.len()
                invariant
                    1 <= self.inputs_count,
                    1 <= self.outputs_count,
                    self.inputs_count + 1 + self.outputs_count <= self.nodes@.len(),
                    links_wf(pre, innovs@, self.nodes@.len() as int),
                    links_sorted(pre),
                    nodes_wf(self.nodes@, pre, innovs@),
                    acyclic(pre, innovs@, self.nodes@.len() as int),
                    k <= self.links@.len(),
                    pre == m2.links@,
                    self.links@.len() == pre.len(),
                    old(self).links@.len() <= self.links@.len() <= old(self).links@.len() + 3,
                    self.inputs_count == old(self).inputs_count,
                    self.outputs_count == old(self).outputs_count,
                    self.in_species == old(self).in_species,
                    self.fitness == old(self).fitness,
                    old(self).nodes@.len() <= self.nodes@.len() <= old(self).nodes@.len() + 1,
                    ledger_wf(innovs@),
                    innovs@ == i2,
                    old_innovs_count <= innovs@.len(),
                    old(innovs)@.is_prefix_of(innovs@),
                    forall|kk: int|
                        0 <= kk < self.links@.len() ==> (#[trigger] self.links@[kk]).innov
                            == pre[kk].innov && self.links@[kk].enabled == pre[kk].enabled && (
                        !pre[kk].enabled ==> self.links@[kk] == pre[kk]) && -W_MAX
                            <= self.links@[kk].weight <= W_MAX,
                decreases self.links@.len() - k,
            {
                let mut l = self.links[k];
                l.mutate_weight(conf);
                self.links[k] = l;
                k += 1;
            }
            proof {
                lemma_same_innov_wf(*self, pre, innovs@);
            }
        }
        let ghost mid = self.links@;
        proof {
            assert(weights_outcome(m2.links@, mid));
        }
        if crate::rng::coin(conf.get_link_disable_mutation_prob()) {
            if self.links.len() >= 1 {
                let tries = if self.links.len() - 1 < 12 {
                    self.links.len() - 1
                } else {
                    12
                };
                let mut disabled_one = false;
                let mut i: usize = 0;
                while i < tries && !disabled_one
                    invariant
                        net_wf(*self, innovs@),
                        i <= tries,
                        self.links@.len() >= 1,
                        old(self).links@.len() <= self.links@.len() <= old(self).links@.len() + 3,
                        self.inputs_count == old(self).inputs_count,
                        self.outputs_count == old(self).outputs_count,
                        self.in_species == old(self).in_species,
                        self.fitness == old(self).fitness,
                        old(self).nodes@.len() <= self.nodes@.len() <= old(self).nodes@.len() + 1,
                        ledger_wf(innovs@),
                        innovs@ == i2,
                        old_innovs_count <= innovs@.len(),
                        old(innovs)@.is_prefix_of(innovs@),
                        !disabled_one ==> self.links@ == mid,
                        disable_outcome(mid, self.links@),
                    decreases tries - i,
                {
                    let idx = crate::rng::rand_below(self.links.len() as u64) as usize;
                    let l = self.links[idx];
                    if l.enabled {
                        let ghost pre = self.links@;
                        self.links[idx] = Link { innov: l.innov, weight: l.weight, enabled: false };
                        disabled_one = true;
                        proof {
                            assert forall|kk: int| 0 <= kk < self.links@.len() implies (
                            #[trigger] self.links@[kk]).innov == pre[kk].innov && -W_MAX
                                <= self.links@[kk].weight <= W_MAX by {}
                            lemma_same_innov_wf(*self, pre, innovs@);
                            assert(self.links@ == mid.update(
                                idx as int,
                                Link { innov: mid[idx as int].innov, weight: mid[idx as int].weight, enabled: false },
                            ));
                        }
                    }
                    i += 1;
                }
            }
        }
        proof {
            assert(disable_outcome(mid, self.links@));
            assert(innovs@ == i2);
            assert(mutation_outcome(*old(self), old(innovs)@, *self, innovs@, old_innovs_count));
            // gene ids descend from the old genome or the generation window
            assert(ids_from(m1.links@, m2.links@, old_innovs_count)) by {
                if m2.links@ == m1.links@ {
                    assert forall|k: int| 0 <= k < m2.links@.len() implies has_innov(
                        m1.links@,
                        (#[trigger] m2.links@[k]).innov,
                    ) || old_innovs_count <= m2.links@[k].innov by {
                        assert(m1.links@[k].innov == m2.links@[k].innov);
                    }
                }
            }
            lemma_mutation_provenance(
                *old(self),
                old(innovs)@,
                m1,
                i1,
                m2,
                mid,
                self.links@,
                old_innovs_count,
            );
        }
    }

    /// Adds an enabled link from `from` to `to` with the given weight: the
    /// ledger supplies (or records) the innovation id, the link is inserted
    /// at its sorted position, and every node's incoming list is rebuilt to
    /// stay canonical.
    pub fn add_link(
        &mut self,
        innovs: &mut Vec<Innov>,
        old_innovs_count: usize,
        weight: i64,
        from: usize,
        to: usize,
    )
        requires
            net_wf(*old(self), old(innovs)@),
            ledger_wf(old(innovs)@),
            old_innovs_count <= old(innovs)@.len(),
            from < old(self).nodes@.len(),
            to < old(self).nodes@.len(),
            -W_MAX <= weight <= W_MAX,
            !has_pair(old(self).links@, old(innovs)@, from as int, to as int),
            can_extend(
                old(self).links@,
                old(innovs)@,
                old(self).nodes@.len() as int,
                from,
                to,
            ),
        ensures
            net_wf(*final(self), final(innovs)@),
            ledger_wf(final(innovs)@),
            old(innovs)@.is_prefix_of(final(innovs)@),
            final(self).inputs_count == old(self).inputs_count,
            final(self).outputs_count == old(self).outputs_count,
            final(self).in_species == old(self).in_species,
            final(self).fitness == old(self).fitness,
            final(self).nodes@.len() == old(self).nodes@.len(),
            exists|p: int, l: Link|
                {
                    &&& 0 <= p <= old(self).links@.len()
                    &&& #[trigger] final(self).links@ == old(self).links@.insert(p, l)
                    &&& l.weight == weight
                    &&& l.enabled
                    &&& l.innov < final(innovs)@.len()
                    &&& final(innovs)@[l.innov as int].from == from
                    &&& final(innovs)@[l.innov as int].to == to
                    &&& old_innovs_count <= l.innov
                    &&& forall|i: int|
                        old_innovs_count <= i < l.innov
                            ==> !((#[trigger] final(innovs)@[i]).from == from
                            && final(innovs)@[i].to == to)
                },
            window_has_pair(old(innovs)@, old_innovs_count as int, from, to) ==> final(innovs)@
                == old(innovs)@,
            !window_has_pair(old(innovs)@, old_innovs_count as int, from, to) ==> final(innovs)@
                == old(innovs)@.push(Innov { from, to, number: old(innovs)@.len() as usize }),
    {
        let ghost old_links = self.links@;
        let ghost old_innovs_seq = innovs@;
        let innov = allocate_or_reuse(innovs, old_innovs_count, from, to);
        proof {
            if window_has_pair(old_innovs_seq, old_innovs_count as int, from, to) {
                assert(innovs@ == old_innovs_seq);
            } else {
                assert(innovs@ == old_innovs_seq.push(
                    Innov { from, to, number: old_innovs_seq.len() as usize },
                ));
            }
            assert(innovs@.subrange(0, old_innovs_seq.len() as int) =~= old_innovs_seq);
            assert(old_innovs_seq.is_prefix_of(innovs@));
            assert forall|i: int| old_innovs_count <= i < innov implies !((#[trigger] innovs@[i]).from
                == from && innovs@[i].to == to) by {
                if !window_has_pair(old_innovs_seq, old_innovs_count as int, from, to) {
                    assert(i < old_innovs_seq.len());
                    assert(innovs@[i] == old_innovs_seq[i]);
                    if innovs@[i].from == from && innovs@[i].to == to {
                        assert(window_has_pair(old_innovs_seq, old_innovs_count as int, from, to));
                    }
                }
            }
            // the new id cannot already sit in this genome: its ledger entry
            // records the pair, and no link with that pair exists
            assert forall|k: int| 0 <= k < old_links.len() implies (#[trigger] old_links[k]).innov
                != innov by {
                if old_links[k].innov == innov {
                    assert(link_from(old_links, old_innovs_seq, k) == from as int);
                    assert(link_to(old_links, old_innovs_seq, k) == to as int);
                }
            }
        }
        let new_link = Link { innov, weight, enabled: true };
        // find the sorted insertion position
        let mut p: usize = 0;
        while p < self.links.len() && self.links[p].innov < innov
            invariant
                p <= self.links@.len(),
                self.links@ == old_links,
                forall|k: int| 0 <= k < p ==> (#[trigger] self.links@[k]).innov < innov,
            decreases self.links@.len() - p,
        {
            p += 1;
        }
        proof {
            assert forall|k: int| p <= k < old_links.len() implies innov < (
            #[trigger] old_links[k]).innov by {
                assert(old_links[p as int].innov != innov);
                if k > p as int {
                    assert(old_links[p as int].innov < old_links[k].innov);
                }
                assert(old_links[k].innov != innov);
            }
        }
        self.links.insert(p, new_link);
        let ghost new_links = self.links@;
        proof {
            assert(new_links == old_links.insert(p as int, new_link));
            assert forall|a: int, b: int| 0 <= a < b < new_links.len() implies (
            #[trigger] new_links[a]).innov < (#[trigger] new_links[b]).innov by {
                if a < p && b < p {
                    assert(new_links[a] == old_links[a] && new_links[b] == old_links[b]);
                } else if a < p && b == p {
                    assert(new_links[a] == old_links[a]);
                } else if a < p && b > p {
                    assert(new_links[a] == old_links[a] && new_links[b] == old_links[b - 1]);
                    assert(old_links[a].innov < innov);
                } else if a == p {
                    assert(new_links[b] == old_links[b - 1]);
                } else {
                    assert(new_links[a] == old_links[a - 1] && new_links[b] == old_links[b - 1]);
                }
            }
        }
        proof {
            assert forall|k: int| 0 <= k < new_links.len() implies {
                &&& (#[trigger] new_links[k]).innov < innovs@.len()
                &&& 0 <= link_from(new_links, innovs@, k) < old(self).nodes@.len()
                &&& 0 <= link_to(new_links, innovs@, k) < old(self).nodes@.len()
                &&& -W_MAX <= new_links[k].weight <= W_MAX
            } by {
                if k < p {
                    assert(new_links[k] == old_links[k]);
                    assert(old_links[k].innov < old_innovs_seq.len());
                    assert(innovs@[old_links[k].innov as int] == old_innovs_seq[old_links[k].innov as int]);
                } else if k == p {
                    assert(new_links[k] == new_link);
                } else {
                    assert(new_links[k] == old_links[k - 1]);
                    assert(old_links[k - 1].innov < old_innovs_seq.len());
                    assert(innovs@[old_links[k - 1].innov as int] == old_innovs_seq[old_links[k
                        - 1].innov as int]);
                }
            }
        }
        // rebuild every node's incoming list so it stays canonical
        let n = self.nodes.len();
        let mut new_nodes: Vec<Node> = Vec::new();
        let mut t: usize = 0;
        while t < n
            invariant
                t <= n,
                new_nodes@.len() == t,
                self.links@ == new_links,
                links_wf(new_links, innovs@, n as int),
                forall|u: int|
                    0 <= u < t ==> (#[trigger] new_nodes@[u]).index == u
                        && new_nodes@[u].in_link_indices@ == incoming(new_links, innovs@, u),
            decreases n - t,
        {
            let mut list: Vec<usize> = Vec::new();
            let mut j: usize = 0;
            while j < self.links.len()
                invariant
                    j <= self.links@.len(),
                    self.links@ == new_links,
                    links_wf(new_links, innovs@, n as int),
                    list@ == incoming(new_links.take(j as int), innovs@, t as int),
                decreases self.links@.len() - j,
            {
                proof {
                    assert(new_links.take(j + 1 as int).drop_last() =~= new_links.take(j as int));
                    assert(new_links.take(j + 1 as int).last() == new_links[j as int]);
                }
                let l = self.links[j];
                if innovs[l.innov].to == t {
                    list.push(j);
                }
                j += 1;
            }
            proof {
                assert(new_links.take(new_links.len() as int) =~= new_links);
            }
            new_nodes.push(Node { in_link_indices: list, index: t });
            t += 1;
        }
        self.nodes = new_nodes;
        proof {
            assert(can_extend(old_links, old_innovs_seq, n as int, from, to));
            let r0 = choose|r: Seq<int>|
                r.len() == n as int && rank_ok(old_links, old_innovs_seq, r) && r[from as int]
                    < r[to as int];
            assert forall|k: int| 0 <= k < new_links.len() implies r0[#[trigger] link_from(
                new_links,
                innovs@,
                k,
            )] < r0[link_to(new_links, innovs@, k)] by {
                if k < p {
                    assert(new_links[k] == old_links[k]);
                    assert(old_links[k].innov < old_innovs_seq.len());
                    assert(innovs@[old_links[k].innov as int] == old_innovs_seq[old_links[k].innov as int]);
                    assert(link_from(old_links, old_innovs_seq, k) == link_from(
                        new_links,
                        innovs@,
                        k,
                    ));
                    assert(link_to(old_links, old_innovs_seq, k) == link_to(new_links, innovs@, k));
                } else if k == p {
                    assert(link_from(new_links, innovs@, k) == from as int);
                    assert(link_to(new_links, innovs@, k) == to as int);
                } else {
                    assert(new_links[k] == old_links[k - 1]);
                    assert(old_links[k - 1].innov < old_innovs_seq.len());
                    assert(innovs@[old_links[k - 1].innov as int] == old_innovs_seq[old_links[k
                        - 1].innov as int]);
                    assert(link_from(old_links, old_innovs_seq, k - 1) == link_from(
                        new_links,
                        innovs@,
                        k,
                    ));
                    assert(link_to(old_links, old_innovs_seq, k - 1) == link_to(
                        new_links,
                        innovs@,
                        k,
                    ));
                }
            }
            assert(rank_ok(new_links, innovs@, r0));
            assert(acyclic(new_links, innovs@, n as int));
            assert(final(self).links@ == old(self).links@.insert(p as int, new_link));
        }
    }
}

/// Law: a crossover child's link set carries no innovation id beyond its
/// first parent's — the child's ids are pointwise the parent's, so every id
/// found in the child is found in the parent.
pub proof fn lemma_crossover_innovs_subset(child: Net, parent: Net)
    requires
        child.links@.len() == parent.links@.len(),
        forall|k: int|
            0 <= k < child.links@.len() ==> (#[trigger] child.links@[k]).innov
                == parent.links@[k].innov,
    ensures
        forall|id: usize| has_innov(child.links@, id) ==> has_innov(parent.links@, id),
{
    assert forall|id: usize| has_innov(child.links@, id) implies has_innov(
        parent.links@,
        id,
    ) by {
        let j = choose|j: int| 0 <= j < child.links@.len() && (#[trigger] child.links@[j]).innov
            == id;
        assert(parent.links@[j].innov == id);
    }
}


/// Two link sequences with pointwise equal innovation ids have the same
/// incoming lists.
pub proof fn lemma_incoming_same_innovs(a: Seq<Link>, b: Seq<Link>, innovs: Seq<Innov>, t: int)
    requires
        a.len() == b.len(),
        forall|k: int| 0 <= k < a.len() ==> (#[trigger] a[k]).innov == b[k].innov,
    ensures
        incoming(a, innovs, t) == incoming(b, innovs, t),
    decreases a.len(),
{
    if a.len() > 0 {
        let pa = a.drop_last();
        let pb = b.drop_last();
        assert(forall|k: int| 0 <= k < pa.len() ==> (#[trigger] pa[k]).innov == pb[k].innov);
        lemma_incoming_same_innovs(pa, pb, innovs, t);
        assert(link_to(a, innovs, a.len() - 1) == link_to(b, innovs, b.len() - 1));
    }
}

/// A node no link points at has an empty canonical incoming list.
pub proof fn lemma_incoming_empty(links: Seq<Link>, innovs: Seq<Innov>, t: int)
    requires
        forall|k: int| 0 <= k < links.len() ==> #[trigger] link_to(links, innovs, k) != t,
    ensures
        incoming(links, innovs, t) == Seq::<usize>::empty(),
    decreases links.len(),
{
    if links.len() > 0 {
        let pre = links.drop_last();
        assert(forall|k: int| 0 <= k < pre.len() ==> pre[k] == links[k]);
        assert forall|k: int| 0 <= k < pre.len() implies #[trigger] link_to(pre, innovs, k)
            != t by {
            assert(link_to(links, innovs, k) != t);
        }
        lemma_incoming_empty(pre, innovs, t);
    }
}

/// Every finite rank sequence is bounded on both sides.
proof fn lemma_seq_bounds(r: Seq<int>) -> (b: (int, int))
    ensures
        forall|i: int| 0 <= i < r.len() ==> b.0 <= #[trigger] r[i] <= b.1,
    decreases r.len(),
{
    if r.len() == 0 {
        (0, 0)
    } else {
        let b0 = lemma_seq_bounds(r.drop_last());
        assert(forall|i: int| 0 <= i < r.len() - 1 ==> r.drop_last()[i] == r[i]);
        let lo = if r.last() < b0.0 {
            r.last()
        } else {
            b0.0
        };
        let hi = if r.last() > b0.1 {
            r.last()
        } else {
            b0.1
        };
        (lo, hi)
    }
}

/// A crossover child of two well-formed parents is well-formed: it shares
/// its first parent's topology, and enabling or re-weighting a link never
/// disturbs the rank witness, which ranges over all links.
pub proof fn lemma_crossover_wf(child: Net, parent1: Net, parent2: Net, innovs: Seq<Innov>)
    requires
        net_wf(parent1, innovs),
        net_wf(parent2, innovs),
        child.inputs_count == parent1.inputs_count,
        child.outputs_count == parent1.outputs_count,
        child.nodes@.len() == parent1.nodes@.len(),
        forall|t: int|
            0 <= t < child.nodes@.len() ==> (#[trigger] child.nodes@[t]).index
                == parent1.nodes@[t].index && child.nodes@[t].in_link_indices@
                == parent1.nodes@[t].in_link_indices@,
        child.links@.len() == parent1.links@.len(),
        forall|k: int|
            0 <= k < child.links@.len() ==> (#[trigger] child.links@[k]).innov
                == parent1.links@[k].innov,
        forall|k: int|
            0 <= k < child.links@.len() ==> (#[trigger] child.links@[k]).weight
                == parent1.links@[k].weight || exists|j: int|
                0 <= j < parent2.links@.len() && (#[trigger] parent2.links@[j]).innov
                    == parent1.links@[k].innov && child.links@[k].weight
                    == parent2.links@[j].weight,
    ensures
        net_wf(child, innovs),
{
    let n = child.nodes@.len() as int;
    assert forall|k: int| 0 <= k < child.links@.len() implies {
        &&& (#[trigger] child.links@[k]).innov < innovs.len()
        &&& 0 <= link_from(child.links@, innovs, k) < n
        &&& 0 <= link_to(child.links@, innovs, k) < n
        &&& -W_MAX <= child.links@[k].weight <= W_MAX
    } by {
        assert(parent1.links@[k].innov < innovs.len());
        assert(link_from(child.links@, innovs, k) == link_from(parent1.links@, innovs, k));
        assert(link_to(child.links@, innovs, k) == link_to(parent1.links@, innovs, k));
        if child.links@[k].weight != parent1.links@[k].weight {
            let j = choose|j: int|
                0 <= j < parent2.links@.len() && (#[trigger] parent2.links@[j]).innov
                    == parent1.links@[k].innov && child.links@[k].weight
                    == parent2.links@[j].weight;
            assert(-W_MAX <= parent2.links@[j].weight <= W_MAX);
        }
    }
    assert forall|t: int| 0 <= t < child.nodes@.len() implies (#[trigger] child.nodes@[t]).index
        == t && child.nodes@[t].in_link_indices@ == incoming(child.links@, innovs, t) by {
        lemma_incoming_same_innovs(child.links@, parent1.links@, innovs, t);
        assert(parent1.nodes@[t].in_link_indices@ == incoming(parent1.links@, innovs, t));
    }
    let r0 = choose|r: Seq<int>| r.len() == n && rank_ok(parent1.links@, innovs, r);
    assert forall|k: int| 0 <= k < child.links@.len() implies r0[#[trigger] link_from(
        child.links@,
        innovs,
        k,
    )] < r0[link_to(child.links@, innovs, k)] by {
        assert(link_from(child.links@, innovs, k) == link_from(parent1.links@, innovs, k));
        assert(link_to(child.links@, innovs, k) == link_to(parent1.links@, innovs, k));
        assert(r0[link_from(parent1.links@, innovs, k)] < r0[link_to(parent1.links@, innovs, k)]);
    }
    assert(rank_ok(child.links@, innovs, r0));
    assert(acyclic(child.links@, innovs, n));
}


/// A genome stays well-formed when its links only change weight (within
/// bounds) or enabled flag: the ids, and with them the topology and the
/// rank witness, are untouched.
pub proof fn lemma_same_innov_wf(net: Net, pre: Seq<Link>, innovs: Seq<Innov>)
    requires
        1 <= net.inputs_count,
        1 <= net.outputs_count,
        net.inputs_count + 1 + net.outputs_count <= net.nodes@.len(),
        links_wf(pre, innovs, net.nodes@.len() as int),
        links_sorted(pre),
        nodes_wf(net.nodes@, pre, innovs),
        acyclic(pre, innovs, net.nodes@.len() as int),
        net.links@.len() == pre.len(),
        forall|k: int|
            0 <= k < net.links@.len() ==> (#[trigger] net.links@[k]).innov == pre[k].innov
                && -W_MAX <= net.links@[k].weight <= W_MAX,
    ensures
        net_wf(net, innovs),
{
    let n = net.nodes@.len() as int;
    assert forall|k: int| 0 <= k < net.links@.len() implies {
        &&& (#[trigger] net.links@[k]).innov < innovs.len()
        &&& 0 <= link_from(net.links@, innovs, k) < n
        &&& 0 <= link_to(net.links@, innovs, k) < n
        &&& -W_MAX <= net.links@[k].weight <= W_MAX
    } by {
        assert(pre[k].innov < innovs.len());
        assert(link_from(net.links@, innovs, k) == link_from(pre, innovs, k));
        assert(link_to(net.links@, innovs, k) == link_to(pre, innovs, k));
    }
    assert forall|t: int| 0 <= t < net.nodes@.len() implies (#[trigger] net.nodes@[t]).index == t
        && net.nodes@[t].in_link_indices@ == incoming(net.links@, innovs, t) by {
        lemma_incoming_same_innovs(net.links@, pre, innovs, t);
    }
    let r0 = choose|r: Seq<int>| r.len() == n && rank_ok(pre, innovs, r);
    assert forall|k: int| 0 <= k < net.links@.len() implies r0[#[trigger] link_from(
        net.links@,
        innovs,
        k,
    )] < r0[link_to(net.links@, innovs, k)] by {
        assert(link_from(net.links@, innovs, k) == link_from(pre, innovs, k));
        assert(link_to(net.links@, innovs, k) == link_to(pre, innovs, k));
        assert(r0[link_from(pre, innovs, k)] < r0[link_to(pre, innovs, k)]);
    }
    assert(rank_ok(net.links@, innovs, r0));
    assert(acyclic(net.links@, innovs, n));
}


/// A structural copy of a well-formed genome is well-formed.
pub proof fn lemma_equiv_wf(a: Net, b: Net, innovs: Seq<Innov>)
    requires
        net_equiv(a, b),
        net_wf(b, innovs),
    ensures
        net_wf(a, innovs),
{
    assert forall|t: int| 0 <= t < a.nodes@.len() implies (#[trigger] a.nodes@[t]).index == t
        && a.nodes@[t].in_link_indices@ == incoming(a.links@, innovs, t) by {
        assert(b.nodes@[t].index == t);
        assert(b.nodes@[t].in_link_indices@ == incoming(b.links@, innovs, t));
    }
}


/// A genome stays well-formed when the ledger grows: its links reference
/// only the old entries, which an extension preserves.
pub proof fn lemma_wf_ledger_extend(net: Net, innovs1: Seq<Innov>, innovs2: Seq<Innov>)
    requires
        net_wf(net, innovs1),
        innovs1.is_prefix_of(innovs2),
    ensures
        net_wf(net, innovs2),
{
    let n = net.nodes@.len() as int;
    assert forall|k: int| 0 <= k < net.links@.len() implies {
        &&& (#[trigger] net.links@[k]).innov < innovs2.len()
        &&& 0 <= link_from(net.links@, innovs2, k) < n
        &&& 0 <= link_to(net.links@, innovs2, k) < n
        &&& -W_MAX <= net.links@[k].weight <= W_MAX
        &&& link_from(net.links@, innovs2, k) == link_from(net.links@, innovs1, k)
        &&& link_to(net.links@, innovs2, k) == link_to(net.links@, innovs1, k)
    } by {
        assert(net.links@[k].innov < innovs1.len());
        assert(innovs2[net.links@[k].innov as int] == innovs1[net.links@[k].innov as int]);
    }
    assert forall|t: int| 0 <= t < net.nodes@.len() implies (#[trigger] net.nodes@[t]).index == t
        && net.nodes@[t].in_link_indices@ == incoming(net.links@, innovs2, t) by {
        lemma_incoming_ledger_extend(net.links@, innovs1, innovs2, t);
    }
    let r0 = choose|r: Seq<int>| r.len() == n && rank_ok(net.links@, innovs1, r);
    assert forall|k: int| 0 <= k < net.links@.len() implies r0[#[trigger] link_from(
        net.links@,
        innovs2,
        k,
    )] < r0[link_to(net.links@, innovs2, k)] by {
        assert(r0[link_from(net.links@, innovs1, k)] < r0[link_to(net.links@, innovs1, k)]);
    }
    assert(rank_ok(net.links@, innovs2, r0));
    assert(acyclic(net.links@, innovs2, n));
}


/// Law: a well-formed genome admits a topological evaluation order — a
/// rank assignment under which every link, enabled or not, ascends — so no
/// sequence of link or node mutations, which all preserve well-formedness,
/// can make a node reachable from itself.
pub proof fn lemma_topological_order_exists(net: Net, innovs: Seq<Innov>)
    requires
        net_wf(net, innovs),
    ensures
        exists|r: Seq<int>|
            r.len() == net.nodes@.len() && rank_ok(net.links@, innovs, r),
{
}


/// Every two links connect distinct node pairs.
pub open spec fn pairs_distinct(links: Seq<Link>, innovs: Seq<Innov>) -> bool {
    forall|k1: int, k2: int|
        0 <= k1 < k2 < links.len() ==> !(#[trigger] link_from(links, innovs, k1) == #[trigger] link_from(
            links,
            innovs,
            k2,
        ) && link_to(links, innovs, k1) == link_to(links, innovs, k2))
}

/// An existing pair survives a sorted insertion and a ledger extension.
pub proof fn lemma_has_pair_insert(
    pre: Seq<Link>,
    post: Seq<Link>,
    pre_i: Seq<Innov>,
    post_i: Seq<Innov>,
    p: int,
    l: Link,
    f: int,
    t: int,
)
    requires
        0 <= p <= pre.len(),
        post == pre.insert(p, l),
        forall|k: int| 0 <= k < pre.len() ==> (#[trigger] pre[k]).innov < pre_i.len(),
        pre_i.is_prefix_of(post_i),
        has_pair(pre, pre_i, f, t),
    ensures
        has_pair(post, post_i, f, t),
{
    let k = choose|k: int|
        0 <= k < pre.len() && #[trigger] link_from(pre, pre_i, k) == f && link_to(pre, pre_i, k)
            == t;
    let k2 = if k < p {
        k
    } else {
        k + 1
    };
    assert(post[k2] == pre[k]);
    assert(post_i[pre[k].innov as int] == pre_i[pre[k].innov as int]);
    assert(link_from(post, post_i, k2) == f && link_to(post, post_i, k2) == t);
}

/// Distinct pairs stay distinct across a sorted insertion of a fresh pair.
pub proof fn lemma_pairs_distinct_insert(
    pre: Seq<Link>,
    post: Seq<Link>,
    pre_i: Seq<Innov>,
    post_i: Seq<Innov>,
    p: int,
    l: Link,
)
    requires
        0 <= p <= pre.len(),
        post == pre.insert(p, l),
        forall|k: int| 0 <= k < pre.len() ==> (#[trigger] pre[k]).innov < pre_i.len(),
        pre_i.is_prefix_of(post_i),
        pairs_distinct(pre, pre_i),
        l.innov < post_i.len(),
        !has_pair(pre, pre_i, post_i[l.innov as int].from as int, post_i[l.innov as int].to as int),
    ensures
        pairs_distinct(post, post_i),
{
    assert forall|k1: int, k2: int| 0 <= k1 < k2 < post.len() implies !(#[trigger] link_from(
        post,
        post_i,
        k1,
    ) == #[trigger] link_from(post, post_i, k2) && link_to(post, post_i, k1) == link_to(
        post,
        post_i,
        k2,
    )) by {
        let m1 = if k1 < p {
            k1
        } else {
            k1 - 1
        };
        let m2 = if k2 < p {
            k2
        } else {
            k2 - 1
        };
        if k1 != p {
            assert(post[k1] == pre[m1]);
            assert(post_i[pre[m1].innov as int] == pre_i[pre[m1].innov as int]);
            assert(link_from(post, post_i, k1) == link_from(pre, pre_i, m1));
            assert(link_to(post, post_i, k1) == link_to(pre, pre_i, m1));
        }
        if k2 != p {
            assert(post[k2] == pre[m2]);
            assert(post_i[pre[m2].innov as int] == pre_i[pre[m2].innov as int]);
            assert(link_from(post, post_i, k2) == link_from(pre, pre_i, m2));
            assert(link_to(post, post_i, k2) == link_to(pre, pre_i, m2));
        }
        if k1 == p {
            if link_from(post, post_i, k2) == link_from(post, post_i, k1) && link_to(
                post,
                post_i,
                k2,
            ) == link_to(post, post_i, k1) {
                assert(has_pair(
                    pre,
                    pre_i,
                    post_i[l.innov as int].from as int,
                    post_i[l.innov as int].to as int,
                ));
            }
        } else if k2 == p {
            if link_from(post, post_i, k1) == link_from(post, post_i, k2) && link_to(
                post,
                post_i,
                k1,
            ) == link_to(post, post_i, k2) {
                assert(has_pair(
                    pre,
                    pre_i,
                    post_i[l.innov as int].from as int,
                    post_i[l.innov as int].to as int,
                ));
            }
        } else {
            assert(m1 < m2);
        }
    }
}


/// What a link mutation may have done, whatever the random draws: nothing;
/// or one disabled gene re-enabled with a fresh bounded weight and the
/// ledger untouched; or one enabled gene inserted with an id from the
/// current generation window. A re-enabled or inserted gene connects a
/// non-output source to a non-input destination and is never a self-loop,
/// and an inserted gene's pair was not yet linked.
pub open spec fn link_mutation_outcome(
    pre: Net,
    pre_i: Seq<Innov>,
    post: Net,
    post_i: Seq<Innov>,
    since: usize,
) -> bool {
    ||| (post.links@ == pre.links@ && post_i == pre_i)
    ||| (exists|k: int|
        0 <= k < pre.links@.len() && !(#[trigger] pre.links@[k]).enabled && post.links@
            == pre.links@.update(k, post.links@[k]) && post.links@[k].innov == pre.links@[k].innov
            && post.links@[k].enabled && -W_MAX <= post.links@[k].weight <= W_MAX && post_i
            == pre_i && pre.links@[k].innov < pre_i.len() && (pre_i[pre.links@[k].innov as int].from
            <= pre.inputs_count || pre_i[pre.links@[k].innov as int].from as int
            >= pre.inputs_count + 1 + pre.outputs_count) && pre.inputs_count
            <= pre_i[pre.links@[k].innov as int].to && pre_i[pre.links@[k].innov as int].from
            != pre_i[pre.links@[k].innov as int].to)
    ||| (exists|p: int, l: Link|
        {
            &&& 0 <= p <= pre.links@.len()
            &&& post.links@ == #[trigger] pre.links@.insert(p, l)
            &&& l.enabled
            &&& since <= l.innov
            &&& l.innov < post_i.len()
            &&& (post_i[l.innov as int].from <= pre.inputs_count || post_i[l.innov as int].from
                as int >= pre.inputs_count + 1 + pre.outputs_count)
            &&& pre.inputs_count <= post_i[l.innov as int].to
            &&& post_i[l.innov as int].from != post_i[l.innov as int].to
            &&& post_i[l.innov as int].from < pre.nodes@.len()
            &&& post_i[l.innov as int].to < pre.nodes@.len()
            &&& !has_pair(
                pre.links@,
                pre_i,
                post_i[l.innov as int].from as int,
                post_i[l.innov as int].to as int,
            )
        })
}


/// Every gene id of `post` is a gene id of `pre` or an id from the current
/// generation window: mutation never invents ids outside the ledger's
/// window and never rewrites inherited ones.
pub open spec fn ids_from(pre: Seq<Link>, post: Seq<Link>, since: usize) -> bool {
    forall|k: int|
        0 <= k < post.len() ==> has_innov(pre, (#[trigger] post[k]).innov) || since <= post[k].innov
}

/// What a node mutation may have done: nothing; or one fresh node appended
/// and some existing gene split — two enabled links added, bracketing the
/// split gene's endpoints through the new node with weight one into it and
/// the split gene's weight out of it — while every old gene survives
/// unchanged, the split gene's enabled flag included.
pub open spec fn node_mutation_outcome(
    pre: Net,
    pre_i: Seq<Innov>,
    post: Net,
    post_i: Seq<Innov>,
    since: usize,
) -> bool {
    ||| (post.links@ == pre.links@ && post.nodes@.len() == pre.nodes@.len() && post_i == pre_i)
    ||| {
        &&& post.nodes@.len() == pre.nodes@.len() + 1
        &&& post.links@.len() == pre.links@.len() + 2
        &&& ids_from(pre.links@, post.links@, since)
        &&& (forall|k: int|
            0 <= k < pre.links@.len() ==> post.links@.contains(#[trigger] pre.links@[k]))
        &&& (exists|sk: int|
            0 <= sk < pre.links@.len() && has_enabled_link(
                post.links@,
                post_i,
                #[trigger] link_from(pre.links@, pre_i, sk),
                pre.nodes@.len() as int,
                1_000_000,
            ) && has_enabled_link(
                post.links@,
                post_i,
                pre.nodes@.len() as int,
                link_to(pre.links@, pre_i, sk),
                pre.links@[sk].weight,
            ))
    }
}

/// What a weight pass may have done: nothing; or every gene kept its id and
/// enabled flag, every disabled gene kept its weight too, and every weight
/// stays within the magnitude bound.
pub open spec fn weights_outcome(pre: Seq<Link>, post: Seq<Link>) -> bool {
    ||| post == pre
    ||| (post.len() == pre.len() && forall|k: int|
        0 <= k < pre.len() ==> (#[trigger] post[k]).innov == pre[k].innov && post[k].enabled
            == pre[k].enabled && -W_MAX <= post[k].weight <= W_MAX && (!pre[k].enabled ==> post[k]
            == pre[k]))
}

/// What a disable step may have done: nothing; or exactly one enabled gene
/// flipped to disabled, everything else untouched.
pub open spec fn disable_outcome(pre: Seq<Link>, post: Seq<Link>) -> bool {
    ||| post == pre
    ||| (exists|k: int|
        0 <= k < pre.len() && (#[trigger] pre[k]).enabled && post == pre.update(
            k,
            Link { innov: pre[k].innov, weight: pre[k].weight, enabled: false },
        ))
}

/// What a whole mutation may have done, whatever the random draws: a link
/// mutation step, then a node split, then a weight pass, then the disabling
/// of at most one gene, each step optional, chained through intermediate
/// states. This ties the final gene content to the old one: genes are never
/// removed, ids never rewritten, and at most one flag falls.
pub open spec fn mutation_outcome(
    pre: Net,
    pre_i: Seq<Innov>,
    post: Net,
    post_i: Seq<Innov>,
    since: usize,
) -> bool {
    exists|m1: Net, m2: Net, i1: Seq<Innov>, mid: Seq<Link>|
        {
            &&& #[trigger] link_mutation_outcome(pre, pre_i, m1, i1, since)
            &&& #[trigger] node_mutation_outcome(m1, i1, m2, post_i, since)
            &&& weights_outcome(m2.links@, mid)
            &&& #[trigger] disable_outcome(mid, post.links@)
            &&& pre_i.is_prefix_of(i1)
            &&& i1.is_prefix_of(post_i)
        }
}


/// Two insertions keep every old gene present and draw no id from outside
/// the old genes and the current window.
proof fn lemma_double_insert_provenance(
    pre: Seq<Link>,
    mid: Seq<Link>,
    post: Seq<Link>,
    p1: int,
    l1: Link,
    p2: int,
    l2: Link,
    since: usize,
)
    requires
        0 <= p1 <= pre.len(),
        mid == pre.insert(p1, l1),
        0 <= p2 <= mid.len(),
        post == mid.insert(p2, l2),
        since <= l1.innov,
        since <= l2.innov,
    ensures
        ids_from(pre, post, since),
        forall|k: int| 0 <= k < pre.len() ==> post.contains(#[trigger] pre[k]),
{
    assert forall|k: int| 0 <= k < pre.len() implies post.contains(#[trigger] pre[k]) by {
        let m1 = if k < p1 {
            k
        } else {
            k + 1
        };
        assert(mid[m1] == pre[k]);
        let m2 = if m1 < p2 {
            m1
        } else {
            m1 + 1
        };
        assert(post[m2] == pre[k]);
    }
    assert forall|k: int| 0 <= k < post.len() implies has_innov(
        pre,
        (#[trigger] post[k]).innov,
    ) || since <= post[k].innov by {
        let k1 = if k < p2 {
            k
        } else {
            k - 1
        };
        if k != p2 {
            assert(post[k] == mid[k1]);
            if k1 != p1 {
                let k0 = if k1 < p1 {
                    k1
                } else {
                    k1 - 1
                };
                assert(mid[k1] == pre[k0]);
                assert(pre[k0].innov == post[k].innov);
            } else {
                assert(mid[k1] == l1);
            }
        } else {
            assert(post[k] == l2);
        }
    }
}


/// Chains gene-id provenance through the four mutation phases: whatever a
/// link step inserted came from the window, a node split only adds window
/// ids, and the weight and disable passes keep ids pointwise.
proof fn lemma_mutation_provenance(
    pre: Net,
    pre_i: Seq<Innov>,
    m1: Net,
    i1: Seq<Innov>,
    m2: Net,
    mid: Seq<Link>,
    post_links: Seq<Link>,
    since: usize,
)
    requires
        link_mutation_outcome(pre, pre_i, m1, i1, since),
        ids_from(m1.links@, m2.links@, since),
        weights_outcome(m2.links@, mid),
        disable_outcome(mid, post_links),
    ensures
        ids_from(pre.links@, post_links, since),
{
    assert(ids_from(pre.links@, m1.links@, since)) by {
        if m1.links@ == pre.links@ && i1 == pre_i {
            assert forall|k: int| 0 <= k < m1.links@.len() implies has_innov(
                pre.links@,
                (#[trigger] m1.links@[k]).innov,
            ) || since <= m1.links@[k].innov by {
                assert(pre.links@[k].innov == m1.links@[k].innov);
            }
        } else if exists|k: int|
            0 <= k < pre.links@.len() && !(#[trigger] pre.links@[k]).enabled && m1.links@
                == pre.links@.update(k, m1.links@[k]) && m1.links@[k].innov
                == pre.links@[k].innov {
            let k0 = choose|k: int|
                0 <= k < pre.links@.len() && !(#[trigger] pre.links@[k]).enabled && m1.links@
                    == pre.links@.update(k, m1.links@[k]) && m1.links@[k].innov
                    == pre.links@[k].innov;
            assert forall|k: int| 0 <= k < m1.links@.len() implies has_innov(
                pre.links@,
                (#[trigger] m1.links@[k]).innov,
            ) || since <= m1.links@[k].innov by {
                if k != k0 {
                    assert(m1.links@[k] == pre.links@[k]);
                }
                assert(pre.links@[k].innov == m1.links@[k].innov);
            }
        } else {
            let (p, l) = choose|p: int, l: Link|
                {
                    &&& 0 <= p <= pre.links@.len()
                    &&& m1.links@ == #[trigger] pre.links@.insert(p, l)
                    &&& l.enabled
                    &&& since <= l.innov
                };
            assert forall|k: int| 0 <= k < m1.links@.len() implies has_innov(
                pre.links@,
                (#[trigger] m1.links@[k]).innov,
            ) || since <= m1.links@[k].innov by {
                if k < p {
                    assert(m1.links@[k] == pre.links@[k]);
                } else if k == p {
                    assert(m1.links@[k] == l);
                } else {
                    assert(m1.links@[k] == pre.links@[k - 1]);
                }
            }
        }
    }
    assert forall|k: int| 0 <= k < post_links.len() implies has_innov(
        pre.links@,
        (#[trigger] post_links[k]).innov,
    ) || since <= post_links[k].innov by {
        assert(post_links[k].innov == mid[k].innov);
        assert(mid[k].innov == m2.links@[k].innov);
        assert(has_innov(m2.links@, m2.links@[k].innov));
        let k2 = choose|k2: int|
            0 <= k2 < m2.links@.len() && (#[trigger] m2.links@[k2]).innov == m2.links@[k].innov;
        assert(has_innov(m1.links@, m2.links@[k2].innov) || since <= m2.links@[k2].innov);
        if has_innov(m1.links@, m2.links@[k2].innov) {
            let k1 = choose|k1: int|
                0 <= k1 < m1.links@.len() && (#[trigger] m1.links@[k1]).innov
                    == m2.links@[k2].innov;
            assert(has_innov(pre.links@, m1.links@[k1].innov) || since <= m1.links@[k1].innov);
        }
    }
}


/// Gene-id provenance composes: ids drawn from `b` or the window, where
/// `b`'s ids are drawn from `a` or the window, are drawn from `a` or the
/// window.
pub proof fn lemma_ids_from_trans(a: Seq<Link>, b: Seq<Link>, c: Seq<Link>, since: usize)
    requires
        ids_from(a, b, since),
        ids_from(b, c, since),
    ensures
        ids_from(a, c, since),
{
    assert forall|k: int| 0 <= k < c.len() implies has_innov(a, (#[trigger] c[k]).innov)
        || since <= c[k].innov by {
        if has_innov(b, c[k].innov) {
            let kb = choose|kb: int| 0 <= kb < b.len() && (#[trigger] b[kb]).innov == c[k].innov;
            assert(has_innov(a, b[kb].innov) || since <= b[kb].innov);
        }
    }
}

/// The number of enabled links in a link sequence.
pub open spec fn enabled_count(links: Seq<Link>) -> int
    decreases links.len(),
{
    if links.len() == 0 {
        0
    } else {
        enabled_count(links.drop_last()) + if links.last().enabled {
            1int
        } else {
            0int
        }
    }
}


/// The incoming-link index list of node `t`, as the genome stores it.
pub open spec fn in_list(net: Net, t: int) -> Seq<usize> {
    net.nodes@[t].in_link_indices@
}

/// The fixed-point sigmoid: one over one plus the exponential of minus
/// forty-nine tenths of the input, approximated by the rational curve
/// `1/2 + y/(2(1+|y|))` on the saturated, scaled magnitude. Exactly one half
/// at zero, strictly inside `[0, FX_ONE]`, and symmetric about the origin.
/// `sum2` is a sum of weight-times-value products, so it carries the square
/// of the fixed-point scale.
pub open spec fn activate_spec(sum2: int) -> int {
    let a = if sum2 < 0 {
        -sum2
    } else {
        sum2
    };
    let a1 = a / (FX_ONE as int);
    let a2 = if a1 > (SIG_SAT as int) {
        SIG_SAT as int
    } else {
        a1
    };
    let y = 49 * a2 / 10;
    let q = y * (FX_HALF as int) / ((FX_ONE as int) + y);
    if sum2 >= 0 {
        (FX_HALF as int) + q
    } else {
        (FX_HALF as int) - q
    }
}

/// The activation stays within `[0, FX_ONE]`.
pub proof fn lemma_activate_bounds(sum2: int)
    ensures
        0 <= activate_spec(sum2) <= FX_ONE as int,
{
    let a = if sum2 < 0 {
        -sum2
    } else {
        sum2
    };
    let a1 = a / (FX_ONE as int);
    assert(a1 >= 0) by (nonlinear_arith)
        requires
            a >= 0,
            a1 == a / (FX_ONE as int),
    ;
    let a2 = if a1 > (SIG_SAT as int) {
        SIG_SAT as int
    } else {
        a1
    };
    let y = 49 * a2 / 10;
    assert(0 <= y <= 4_900_000_000int) by (nonlinear_arith)
        requires
            0 <= a2 <= SIG_SAT as int,
            y == 49 * a2 / 10,
    ;
    let q = y * (FX_HALF as int) / ((FX_ONE as int) + y);
    assert(0 <= q && q < FX_HALF as int) by (nonlinear_arith)
        requires
            0 <= y,
            q == y * (FX_HALF as int) / ((FX_ONE as int) + y),
    ;
}

/// The value of node `i` under a fuel-bounded unfolding of the network:
/// `None` when the fuel does not cover the node's dependency depth. Input
/// nodes read the driver's inputs, the bias node is one, and every other
/// node applies the activation to its incoming weighted sum.
pub open spec fn node_val(
    net: Net,
    innovs: Seq<Innov>,
    inputs: Seq<i64>,
    i: int,
    fuel: nat,
) -> Option<int>
    decreases fuel, 0int,
{
    if fuel == 0 {
        None
    } else if 0 <= i < net.inputs_count {
        Some(inputs[i] as int)
    } else if i == net.inputs_count {
        Some(FX_ONE as int)
    } else {
        match in_sum(net, innovs, inputs, i, in_list(net, i).len() as int, (fuel - 1) as nat) {
            Some(s) => Some(activate_spec(s)),
            None => None,
        }
    }
}

/// The weighted sum over the first `j` incoming links of node `t`, `None`
/// as soon as any enabled source is out of fuel.
pub open spec fn in_sum(
    net: Net,
    innovs: Seq<Innov>,
    inputs: Seq<i64>,
    t: int,
    j: int,
    fuel: nat,
) -> Option<int>
    decreases fuel, j + 1,
{
    if j <= 0 {
        Some(0)
    } else {
        let idx = in_list(net, t)[j - 1] as int;
        let l = net.links@[idx];
        let rest = in_sum(net, innovs, inputs, t, j - 1, fuel);
        if !l.enabled {
            rest
        } else {
            let src = link_from(net.links@, innovs, idx);
            match (node_val(net, innovs, inputs, src, fuel), rest) {
                (Some(v), Some(s)) => Some(s + l.weight * v),
                _ => None,
            }
        }
    }
}

/// More fuel never changes a value that is already defined.
pub proof fn lemma_val_mono(
    net: Net,
    innovs: Seq<Innov>,
    inputs: Seq<i64>,
    i: int,
    f1: nat,
    f2: nat,
)
    requires
        f1 <= f2,
        node_val(net, innovs, inputs, i, f1) is Some,
    ensures
        node_val(net, innovs, inputs, i, f2) == node_val(net, innovs, inputs, i, f1),
    decreases f1, 0int,
{
    if !(0 <= i < net.inputs_count) && i != net.inputs_count {
        lemma_sum_mono(
            net,
            innovs,
            inputs,
            i,
            in_list(net, i).len() as int,
            (f1 - 1) as nat,
            (f2 - 1) as nat,
        );
    }
}

/// More fuel never changes an incoming sum that is already defined.
pub proof fn lemma_sum_mono(
    net: Net,
    innovs: Seq<Innov>,
    inputs: Seq<i64>,
    t: int,
    j: int,
    f1: nat,
    f2: nat,
)
    requires
        f1 <= f2,
        in_sum(net, innovs, inputs, t, j, f1) is Some,
    ensures
        in_sum(net, innovs, inputs, t, j, f2) == in_sum(net, innovs, inputs, t, j, f1),
    decreases f1, j + 1,
{
    if j > 0 {
        let idx = in_list(net, t)[j - 1] as int;
        let l = net.links@[idx];
        lemma_sum_mono(net, innovs, inputs, t, j - 1, f1, f2);
        if l.enabled {
            let src = link_from(net.links@, innovs, idx);
            lemma_val_mono(net, innovs, inputs, src, f1, f2);
        }
    }
}

/// Every defined node value lies within the weight magnitude bound,
/// provided the driver's inputs do: computed nodes emit activations within
/// one unit, and input nodes pass the driver's values through.
pub proof fn lemma_val_bound(net: Net, innovs: Seq<Innov>, inputs: Seq<i64>, i: int, fuel: nat)
    requires
        forall|k: int| 0 <= k < inputs.len() ==> -W_MAX <= #[trigger] inputs[k] <= W_MAX,
        net.inputs_count <= inputs.len(),
        node_val(net, innovs, inputs, i, fuel) is Some,
    ensures
        -W_MAX <= node_val(net, innovs, inputs, i, fuel).unwrap() <= W_MAX,
{
    if !(0 <= i < net.inputs_count) && i != net.inputs_count {
        let s = in_sum(
            net,
            innovs,
            inputs,
            i,
            in_list(net, i).len() as int,
            (fuel - 1) as nat,
        ).unwrap();
        lemma_activate_bounds(s);
    }
}

/// All output values of `out` are the network's node values at fuel `f`.
pub open spec fn outputs_at_fuel(
    net: Net,
    innovs: Seq<Innov>,
    inputs: Seq<i64>,
    out: Seq<i64>,
    f: nat,
) -> bool {
    forall|k: int|
        0 <= k < out.len() ==> #[trigger] node_val(net, innovs, inputs, net.inputs_count + 1 + k, f)
            == Some(out[k] as int)
}

/// The node has a defined value at some fuel.
pub open spec fn settled(net: Net, innovs: Seq<Innov>, inputs: Seq<i64>, i: int) -> bool {
    exists|f: nat| node_val(net, innovs, inputs, i, f) is Some
}

/// The node's value: by fuel monotonicity it does not depend on which
/// sufficient fuel is chosen.
pub open spec fn value_at(net: Net, innovs: Seq<Innov>, inputs: Seq<i64>, i: int) -> int {
    node_val(
        net,
        innovs,
        inputs,
        i,
        choose|f: nat| node_val(net, innovs, inputs, i, f) is Some,
    ).unwrap()
}

/// A value defined at any fuel is the node's one settled value.
pub proof fn lemma_value_at_of(net: Net, innovs: Seq<Innov>, inputs: Seq<i64>, i: int, f: nat)
    requires
        node_val(net, innovs, inputs, i, f) is Some,
    ensures
        settled(net, innovs, inputs, i),
        value_at(net, innovs, inputs, i) == node_val(net, innovs, inputs, i, f).unwrap(),
{
    assert(settled(net, innovs, inputs, i));
    let f2 = choose|f2: nat| node_val(net, innovs, inputs, i, f2) is Some;
    if f <= f2 {
        lemma_val_mono(net, innovs, inputs, i, f, f2);
    } else {
        lemma_val_mono(net, innovs, inputs, i, f2, f);
    }
}

/// Law: evaluation is a function of the genome, the ledger and the inputs —
/// any two output rows that meet `eval`'s contract on the same arguments
/// are equal, so evaluating twice yields identical outputs.
pub proof fn lemma_eval_idempotent(
    net: Net,
    innovs: Seq<Innov>,
    inputs: Seq<i64>,
    out1: Seq<i64>,
    out2: Seq<i64>,
)
    requires
        out1.len() == net.outputs_count,
        out2.len() == net.outputs_count,
        forall|k: int|
            0 <= k < out1.len() ==> #[trigger] out1[k] as int == value_at(
                net,
                innovs,
                inputs,
                net.inputs_count + 1 + k,
            ),
        forall|k: int|
            0 <= k < out2.len() ==> #[trigger] out2[k] as int == value_at(
                net,
                innovs,
                inputs,
                net.inputs_count + 1 + k,
            ),
    ensures
        out1 == out2,
{
    assert forall|k: int| 0 <= k < out1.len() implies out1[k] == out2[k] by {
        assert(out1[k] as int == out2[k] as int);
    }
    assert(out1 =~= out2);
}

/// The number of false entries in a sequence of flags.
pub open spec fn count_false(s: Seq<bool>) -> int
    decreases s.len(),
{
    if s.len() == 0 {
        0
    } else {
        count_false(s.drop_last()) + if s.last() {
            0int
        } else {
            1int
        }
    }
}

/// Appending a flag adds one to the count when it is false.
pub proof fn lemma_count_false_push(s: Seq<bool>, b: bool)
    ensures
        count_false(s.push(b)) == count_false(s) + if b {
            0int
        } else {
            1int
        },
{
    assert(s.push(b).drop_last() =~= s);
}

/// Setting a false flag true lowers the count by one.
pub proof fn lemma_count_false_update(s: Seq<bool>, u: int)
    requires
        0 <= u < s.len(),
        !s[u],
    ensures
        count_false(s.update(u, true)) == count_false(s) - 1,
    decreases s.len(),
{
    let s2 = s.update(u, true);
    if u == s.len() - 1 {
        assert(s2.drop_last() =~= s.drop_last());
        assert(s2.last());
    } else {
        assert(s2.drop_last() =~= s.drop_last().update(u, true));
        lemma_count_false_update(s.drop_last(), u);
        assert(s2.last() == s.last());
    }
}

/// A positive count means some flag is false; a zero count means none is.
pub proof fn lemma_count_false_pos(s: Seq<bool>)
    ensures
        count_false(s) > 0 ==> exists|j: int| 0 <= j < s.len() && !s[j],
        count_false(s) == 0 ==> forall|j: int| 0 <= j < s.len() ==> s[j],
        0 <= count_false(s) <= s.len(),
    decreases s.len(),
{
    if s.len() > 0 {
        lemma_count_false_pos(s.drop_last());
        assert(forall|j: int| 0 <= j < s.len() - 1 ==> s.drop_last()[j] == s[j]);
        if count_false(s) > 0 {
            if !s.last() {
                assert(!s[s.len() - 1]);
            } else {
                let j = choose|j: int| 0 <= j < s.len() - 1 && !s.drop_last()[j];
                assert(!s[j]);
            }
        }
    }
}

/// Picks, among the nodes still unflagged below `k`, one of minimal rank.
proof fn lemma_argmin(done: Seq<bool>, r: Seq<int>, k: int) -> (m: int)
    requires
        1 <= k <= done.len(),
        done.len() <= r.len(),
        exists|j: int| 0 <= j < k && !done[j],
    ensures
        0 <= m < k,
        !done[m],
        forall|v: int| 0 <= v < k && !(#[trigger] done[v]) ==> r[m] <= r[v],
    decreases k,
{
    if k == 1 {
        0
    } else if exists|j: int| 0 <= j < k - 1 && !done[j] {
        let m0 = lemma_argmin(done, r, k - 1);
        if !done[k - 1] && r[k - 1] < r[m0] {
            k - 1
        } else {
            m0
        }
    } else {
        let j0 = choose|j: int| 0 <= j < k && !done[j];
        assert(j0 == k - 1);
        k - 1
    }
}

/// In a well-formed genome with an unevaluated node, some unevaluated node
/// has every incoming source already evaluated: the one of minimal rank.
proof fn lemma_ready_node(net: Net, innovs: Seq<Innov>, done: Seq<bool>) -> (m: int)
    requires
        net_wf(net, innovs),
        net.links@.len() <= usize::MAX,
        done.len() == net.nodes@.len(),
        exists|j: int| 0 <= j < done.len() && !done[j],
    ensures
        0 <= m < done.len(),
        !done[m],
        forall|q: int|
            0 <= q < in_list(net, m).len() ==> done[link_from(
                net.links@,
                innovs,
                #[trigger] in_list(net, m)[q] as int,
            )],
{
    let n = net.nodes@.len() as int;
    assert(acyclic(net.links@, innovs, n));
    let r = choose|r: Seq<int>| r.len() == n && rank_ok(net.links@, innovs, r);
    let m = lemma_argmin(done, r, n);
    lemma_incoming_props(net.links@, innovs, m);
    assert(in_list(net, m) == incoming(net.links@, innovs, m));
    assert forall|q: int| 0 <= q < in_list(net, m).len() implies done[link_from(
        net.links@,
        innovs,
        #[trigger] in_list(net, m)[q] as int,
    )] by {
        let idx = in_list(net, m)[q] as int;
        assert(incoming(net.links@, innovs, m)[q] == in_list(net, m)[q]);
        assert(0 <= idx < net.links@.len());
        assert(link_to(net.links@, innovs, idx) == m);
        assert(net.links@[idx].innov < innovs.len());
        let src = link_from(net.links@, innovs, idx);
        assert(0 <= src < n);
        assert(r[src] < r[m]);
        if !done[src] {
            assert(r[m] <= r[src]);
        }
    }
    m
}


impl Link {
    /// Mutates the weight of an enabled link: with probability
    /// `conf.get_complete_weight_override_prob()` the weight is rerolled
    /// from `conf.init_weight()`, otherwise it is handed to
    /// `conf.mutate_weight` for perturbation. Disabled links are untouched.
    pub fn mutate_weight<C: Conf>(&mut self, conf: &C)
        requires
            -W_MAX <= old(self).weight <= W_MAX,
        ensures
            final(self).innov == old(self).innov,
            final(self).enabled == old(self).enabled,
            -W_MAX <= final(self).weight <= W_MAX,
            !old(self).enabled ==> *final(self) == *old(self),
    {
        if self.enabled {
            if crate::rng::coin(conf.get_complete_weight_override_prob()) {
                self.weight = conf.init_weight();
            } else {
                self.weight = conf.mutate_weight(self.weight);
            }
        }
    }
}

impl Node {

    /// Finds the position, within this node's incoming list, of the link
    /// carrying the given innovation id, by binary search over the
    /// ascending ids. The id must be present.
    pub fn find_link(&mut self, innov: usize, net: &Net) -> (r: usize)
        requires
            forall|a: int|
                0 <= a < old(self).in_link_indices@.len() ==> #[trigger] old(
                    self,
                ).in_link_indices@[a] < net.links@.len(),
            forall|a: int, b: int|
                0 <= a < b < old(self).in_link_indices@.len()
                    ==> net.links@[(#[trigger] old(self).in_link_indices@[a]) as int].innov
                    < net.links@[(#[trigger] old(self).in_link_indices@[b]) as int].innov,
            exists|a: int|
                0 <= a < old(self).in_link_indices@.len() && net.links@[(#[trigger] old(
                    self,
                ).in_link_indices@[a]) as int].innov == innov,
        ensures
            *final(self) == *old(self),
            r < old(self).in_link_indices@.len(),
            net.links@[old(self).in_link_indices@[r as int] as int].innov == innov,
    {
        let mut lo: usize = 0;
        let mut hi: usize = self.in_link_indices.len();
        while lo < hi
            invariant
                lo <= hi <= self.in_link_indices@.len(),
                *self == *old(self),
                forall|a: int|
                    0 <= a < self.in_link_indices@.len() ==> #[trigger] self.in_link_indices@[a]
                        < net.links@.len(),
                forall|a: int, b: int|
                    0 <= a < b < self.in_link_indices@.len()
                        ==> net.links@[(#[trigger] self.in_link_indices@[a]) as int].innov
                        < net.links@[(#[trigger] self.in_link_indices@[b]) as int].innov,
                exists|a: int|
                    lo <= a < hi && net.links@[(#[trigger] self.in_link_indices@[a]) as int].innov
                        == innov,
            decreases hi - lo,
        {
            let mid = lo + (hi - lo) / 2;
            let midv = net.links[self.in_link_indices[mid]].innov;
            if midv < innov {
                proof {
                    let a = choose|a: int|
                        lo <= a < hi && net.links@[(#[trigger] self.in_link_indices@[a]) as int].innov
                            == innov;
                    if a <= mid as int {
                        if a < mid as int {
                            assert(net.links@[self.in_link_indices@[a] as int].innov
                                < net.links@[self.in_link_indices@[mid as int] as int].innov);
                        }
                    }
                }
                lo = mid + 1;
            } else if innov < midv {
                proof {
                    let a = choose|a: int|
                        lo <= a < hi && net.links@[(#[trigger] self.in_link_indices@[a]) as int].innov
                            == innov;
                    if a >= mid as int {
                        if a > mid as int {
                            assert(net.links@[self.in_link_indices@[mid as int] as int].innov
                                < net.links@[self.in_link_indices@[a] as int].innov);
                        }
                    }
                }
                hi = mid;
            } else {
                return mid;
            }
        }
        proof {
            assert(false);
        }
        0
    }

    /// The activation function over a fixed-point-squared input sum.
    pub fn activate(sum2: i128) -> (r: i64)
        requires
            sum2 != i128::MIN,
        ensures
            r as int == activate_spec(sum2 as int),
            0 <= r <= FX_ONE,
    {
        proof {
            lemma_activate_bounds(sum2 as int);
        }
        let a: i128 = if sum2 < 0 {
            -sum2
        } else {
            sum2
        };
        let a1: i128 = a / (FX_ONE as i128);
        proof {
            assert(a1 >= 0) by (nonlinear_arith)
                requires
                    a >= 0,
                    a1 == a as int / (FX_ONE as int),
            ;
        }
        let a2: i128 = if a1 > (SIG_SAT as i128) {
            SIG_SAT as i128
        } else {
            a1
        };
        let y: i128 = 49 * a2 / 10;
        proof {
            assert(0 <= y <= 4_900_000_000int) by (nonlinear_arith)
                requires
                    0 <= a2 <= SIG_SAT as int,
                    y as int == 49 * (a2 as int) / 10,
            ;
        }
        let q: i128 = y * (FX_HALF as i128) / ((FX_ONE as i128) + y);
        proof {
            assert(0 <= q && q < FX_HALF as int) by (nonlinear_arith)
                requires
                    0 <= y,
                    q as int == y as int * (FX_HALF as int) / ((FX_ONE as int) + y as int),
            ;
        }
        let r128: i128 = if sum2 >= 0 {
            (FX_HALF as i128) + q
        } else {
            (FX_HALF as i128) - q
        };
        r128 as i64
    }
}

} // verus!
