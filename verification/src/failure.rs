//! Random failures: every link fails on its own, with the probability that
//! its stability leaves.

use vstd::prelude::*;
use rand::distributions::Distribution;
use rand::distributions::Uniform;
use rand::thread_rng;
use crate::link::Link;
use crate::link::FULL_STABILITY;
use crate::topology::is_listing;
use crate::topology::lemma_listing;
use crate::topology::lemma_listing_unique;
use crate::topology::link_at;
use crate::topology::link_ids;
use crate::topology::listing;
use crate::topology::remove_link;
use crate::topology::topology_links;
use crate::topology::topology_nodes;
use crate::topology::topology_order;
use crate::topology::Topology;

verus! {

/// Whether a link of the given stability fails on a draw: it does when the
/// draw is greater than the stability.
pub open spec fn fails(draw: u64, stability: u64) -> bool {
    draw > stability
}

/// Whether link `e` is still there after the first `done` links of `ids`
/// have met their draws, the link at position `k` meeting `draws[k]`. A link
/// without a draw stays.
pub open spec fn kept_upto(links: Map<u32, Link>, ids: Seq<u32>, draws: Seq<u64>, done: int, e: u32) -> bool {
    forall|k: int| 0 <= k < done && k < ids.len() && k < draws.len() && (#[trigger] ids[k]) == e ==> !fails(draws[k], links[e].wire.stability)
}

/// The links that are left after the first `done` links of `ids` have met
/// their draws.
pub open spec fn remaining(links: Map<u32, Link>, ids: Seq<u32>, draws: Seq<u64>, done: int) -> Map<u32, Link> {
    Map::new(|e: u32| links.dom().contains(e) && kept_upto(links, ids, draws, done, e), |e: u32| links[e])
}

/// The links that are left when the links, in the order of their indices,
/// meet the draws in theirs.
pub open spec fn survivors(links: Map<u32, Link>, draws: Seq<u64>) -> Map<u32, Link> {
    remaining(links, listing(links), draws, listing(links).len() as int)
}

/// Whether `draws` holds one draw from [0, 1) for each link.
pub open spec fn is_sample(links: Map<u32, Link>, draws: Seq<u64>) -> bool {
    &&& draws.len() == listing(links).len()
    &&& forall|k: int| 0 <= k < draws.len() ==> #[trigger] draws[k] < FULL_STABILITY
}

/// `Uniform::new(low, high)` sampled once with `thread_rng()`: a number in
/// the range from `low` up to, not including, `high`. It panics on an empty
/// range, which the precondition leaves out.
#[verifier::external_body]
pub(crate) fn uniform(low: u64, high: u64) -> (drawn: u64)
    requires
        low < high,
    ensures
        low <= drawn < high,
{
    Uniform::new(low, high).sample(&mut thread_rng())
}

/// Whether a link of the given stability fails on a draw.
pub fn link_fails(draw: u64, stability: u64) -> (failed: bool)
    ensures
        failed == fails(draw, stability),
{
    draw > stability
}

/// Draws `count` times from [0, 1), in units of 2^-52.
pub fn sample(count: usize) -> (draws: Vec<u64>)
    ensures
        draws@.len() == count,
        forall|k: int| 0 <= k < count ==> #[trigger] draws@[k] < FULL_STABILITY,
{
    let mut draws: Vec<u64> = Vec::new();
    let mut k: usize = 0;
    while k < count
        invariant
            k <= count,
            draws@.len() == k,
            forall|m: int| 0 <= m < k ==> #[trigger] draws@[m] < FULL_STABILITY,
        decreases count - k,
    {
        draws.push(uniform(0, FULL_STABILITY));
        k = k + 1;
    }
    draws
}

/// Removes the links of `ids` that fail, the link at position `k` meeting
/// `draws[k]`.
fn cut(graph: &mut Topology, ids: &Vec<u32>, draws: &Vec<u64>)
    requires
        ids@ == listing(topology_links(*old(graph))),
    ensures
        topology_links(*final(graph)) == survivors(topology_links(*old(graph)), draws@),
        topology_nodes(*final(graph)) == topology_nodes(*old(graph)),
        survivors(topology_links(*old(graph)), draws@) == topology_links(*old(graph)) ==> topology_order(*final(graph)) == topology_order(*old(graph)),
{
    let ghost before = topology_links(*graph);
    proof {
        lemma_listing(before);
    }
    let mut k: usize = 0;
    while k < ids.len() && k < draws.len()
        invariant
            k <= ids.len(),
            k <= draws.len(),
            is_listing(before, ids@),
            topology_nodes(*graph) == topology_nodes(*old(graph)),
            topology_links(*graph) == remaining(before, ids@, draws@, k as int),
            topology_links(*graph).dom() == before.dom() ==> topology_order(*graph) == topology_order(*old(graph)),
        decreases ids.len() - k,
    {
        let id: u32 = ids[k];
        match link_at(graph, id) {
            Some(wire) => {
                if link_fails(draws[k], wire.stability) {
                    remove_link(graph, id);
                }
            },
            None => {},
        }
        proof {
            let after = topology_links(*graph);
            let next = remaining(before, ids@, draws@, k + 1);
            assert(before.dom().contains(id)) by {
                assert(ids@.contains(id));
            }
            assert forall|e: u32| after.dom().contains(e) == next.dom().contains(e) by {
                if e == id && !fails(draws@[k as int], before[id].wire.stability) {
                    assert forall|m: int| 0 <= m < k + 1 && m < ids@.len() && m < draws@.len() && (#[trigger] ids@[m]) == e implies !fails(
                        draws@[m],
                        before[e].wire.stability,
                    ) by {}
                }
            }
        }
        k = k + 1;
    }
    assert(topology_links(*graph) =~= survivors(before, draws@)) by {
        assert forall|e: u32| kept_upto(before, ids@, draws@, k as int, e) == kept_upto(before, ids@, draws@, ids@.len() as int, e) by {}
    }
}

/// Removes the links that fail: the links, in the order of their indices,
/// meet the draws in theirs, and a link whose draw is greater than its
/// stability leaves the topology. A link without a draw stays.
pub fn disconnect(graph: &mut Topology, draws: &Vec<u64>)
    ensures
        topology_links(*final(graph)) == survivors(topology_links(*old(graph)), draws@),
        topology_nodes(*final(graph)) == topology_nodes(*old(graph)),
        survivors(topology_links(*old(graph)), draws@) == topology_links(*old(graph)) ==> topology_order(*final(graph)) == topology_order(*old(graph)),
{
    let ids = link_ids(graph);
    proof {
        lemma_listing_unique(topology_links(*graph), ids@);
    }
    cut(graph, &ids, draws);
}

/// Removes links at random: each link fails on a draw of its own from
/// [0, 1), when the draw is greater than its stability.
pub fn random_disconnect(graph: &mut Topology)
    ensures
        exists|draws: Seq<u64>| is_sample(topology_links(*old(graph)), draws)
            && topology_links(*final(graph)) == #[trigger] survivors(topology_links(*old(graph)), draws),
        topology_nodes(*final(graph)) == topology_nodes(*old(graph)),
        topology_links(*final(graph)) == topology_links(*old(graph)) ==> topology_order(*final(graph)) == topology_order(*old(graph)),
{
    let ghost before = topology_links(*graph);
    let ids = link_ids(graph);
    proof {
        lemma_listing_unique(before, ids@);
    }
    let draws = sample(ids.len());
    cut(graph, &ids, &draws);
}

} // verus!
