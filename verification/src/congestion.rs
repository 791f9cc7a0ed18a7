//! Measuring congestion: how loaded the links are, and how many carry more
//! than they have capacity for.

use vstd::prelude::*;
use crate::demand::total;
use crate::demand::Intensity;
use crate::link::Link;
use crate::topology::lemma_listing_unique;
use crate::topology::link_at;
use crate::topology::link_ids;
use crate::topology::listing;
use crate::topology::topology_links;
use crate::topology::Topology;

verus! {

/// What the congestion metric of a topology is made of. With flow `a` and
/// bandwidth `c` of each link, the metric is the sum of `a / (c - a)` over
/// the links, in their order, divided by the whole demand; a result that is
/// not positive counts as 1.
#[derive(Debug)]
pub struct Congestion {
    /// Flow and bandwidth of each link, in the order of the links' indices.
    pub loads: Vec<(u64, u64)>,
    /// The sum of all entries of the demand matrix.
    pub demand: u64,
}

/// Flow and bandwidth of each link, in the order of the links' indices.
pub open spec fn loads_of(links: Map<u32, Link>) -> Seq<(u64, u64)> {
    Seq::new(listing(links).len(), |k: int| (links[listing(links)[k]].wire.flow, links[listing(links)[k]].wire.bandwidth))
}

/// How many of the loads have a flow greater than the bandwidth.
pub open spec fn overloads(loads: Seq<(u64, u64)>) -> nat
    decreases loads.len(),
{
    if loads.len() == 0 {
        0
    } else {
        overloads(loads.drop_last()) + (if loads.last().0 > loads.last().1 {
            1nat
        } else {
            0nat
        })
    }
}

/// Measures a topology after routing: what its congestion metric is made of,
/// and the number of links whose flow is greater than their bandwidth.
///
/// The sum of the demand matrix must fit in `u64`.
pub fn test_network(graph: &Topology, intensity: &Intensity) -> (measured: (Congestion, usize))
    requires
        total(intensity@) <= u64::MAX,
    ensures
        measured.0.loads@ == loads_of(topology_links(*graph)),
        measured.0.demand == total(intensity@),
        measured.1 == overloads(loads_of(topology_links(*graph))),
{
    let ghost links = topology_links(*graph);
    let ids = link_ids(graph);
    proof {
        lemma_listing_unique(links, ids@);
    }
    let mut loads: Vec<(u64, u64)> = Vec::new();
    let mut over: usize = 0;
    let mut k: usize = 0;
    while k < ids.len()
        invariant
            k <= ids.len(),
            ids@ == listing(links),
            links == topology_links(*graph),
            forall|e: u32| links.dom().contains(e) <==> ids@.contains(e),
            loads@ == loads_of(links).take(k as int),
            over == overloads(loads@),
            over <= k,
        decreases ids.len() - k,
    {
        let id: u32 = ids[k];
        let ghost sofar = loads@;
        match link_at(graph, id) {
            Some(wire) => {
                loads.push((wire.flow, wire.bandwidth));
                if wire.flow > wire.bandwidth {
                    over = over + 1;
                }
            },
            None => {},
        }
        proof {
            assert(loads@.drop_last() =~= sofar);
        }
        k = k + 1;
    }
    assert(loads@ =~= loads_of(links));
    let demand: u64 = intensity.whole();
    (Congestion { loads, demand }, over)
}

} // verus!
