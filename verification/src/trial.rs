//! Trials and their aggregation: a trial fails links at random, routes the
//! demand over what is left and measures the result; many trials make the
//! estimate of the reliability.

use vstd::prelude::*;
use crate::congestion::loads_of;
use crate::congestion::overloads;
use crate::congestion::test_network;
use crate::congestion::Congestion;
use crate::demand::total;
use crate::demand::Intensity;
use crate::failure::is_sample;
use crate::failure::random_disconnect;
use crate::failure::survivors;
use crate::flow::all_reachable;
use crate::flow::lemma_pair_total_within;
use crate::flow::lemma_same_reach;
use crate::flow::lemma_unladen;
use crate::flow::reset_flow;
use crate::flow::routed;
use crate::flow::routed_as_found;
use crate::flow::set_flow;
use crate::flow::unladen;
use crate::link::Link;
use crate::topology::copy_topology;
use crate::topology::topology_links;
use crate::topology::topology_order;
use crate::topology::Topology;

verus! {

/// The outcome of one trial.
#[derive(Debug)]
pub struct Trial {
    /// Whether every pair of nodes had a path in what the failures left.
    pub joined: bool,
    /// What the congestion metric of the trial is made of.
    pub congestion: Congestion,
    /// The number of links that carry more than their bandwidth.
    pub overloaded: usize,
}

/// Whether `trial` is an outcome that a trial on `base` can have: for some
/// draws, the links that survive them are cleared of flow and the demand is
/// routed over them; the trial is joined when every pair of nodes had a path,
/// and it holds the loads of the links after routing.
pub open spec fn trial_of(base: Map<u32, Link>, nodes: Seq<u32>, demand: Seq<Seq<u64>>, trial: Trial) -> bool {
    exists|draws: Seq<u64>, after: Map<u32, Link>|
        {
            &&& is_sample(base, draws)
            &&& #[trigger] routed(unladen(survivors(base, draws)), nodes, demand, after)
            &&& trial.joined == all_reachable(survivors(base, draws), nodes)
            &&& trial.congestion.loads@ == loads_of(after)
            &&& trial.congestion.demand == total(demand)
            &&& trial.overloaded == overloads(loads_of(after))
        }
}

/// Whether `trial` is an outcome that a trial on `base` can have when routing
/// goes as the search finds: as `trial_of`, with the routes being those that
/// the search finds on the links that are left. Those are laid as the links
/// of `base` were, in the order `laid`, if no link failed; if one did, this
/// says nothing of their order.
pub open spec fn trial_as_found(base: Map<u32, Link>, laid: Seq<u32>, nodes: Seq<u32>, demand: Seq<Seq<u64>>, trial: Trial) -> bool {
    exists|draws: Seq<u64>, left: Seq<u32>, after: Map<u32, Link>|
        {
            &&& is_sample(base, draws)
            &&& (survivors(base, draws) == base ==> left == laid)
            &&& #[trigger] routed_as_found(unladen(survivors(base, draws)), left, nodes, demand, after)
            &&& trial.joined == all_reachable(survivors(base, draws), nodes)
            &&& trial.congestion.loads@ == loads_of(after)
            &&& trial.congestion.demand == total(demand)
            &&& trial.overloaded == overloads(loads_of(after))
        }
}

/// Runs one trial on a copy of the topology, which itself stays as it is:
/// links fail at random, the flow of the others is reset, the demand is
/// routed and the congestion measured.
///
/// The sum of the demand matrix must fit in `u64`.
pub fn trial(graph: &Topology, nodes: &Vec<u32>, intensity: &Intensity) -> (outcome: Trial)
    requires
        nodes.len() <= intensity@.len(),
        total(intensity@) <= u64::MAX,
    ensures
        trial_of(topology_links(*graph), nodes@, intensity@, outcome),
        trial_as_found(topology_links(*graph), topology_order(*graph), nodes@, intensity@, outcome),
{
    let _: usize = intensity.size();
    let mut working = copy_topology(graph);
    random_disconnect(&mut working);
    let ghost left = topology_links(working);
    let ghost left_order = topology_order(working);
    reset_flow(&mut working);
    proof {
        lemma_pair_total_within(intensity@, nodes.len() as int, nodes.len() as int);
    }
    let joined = set_flow(&mut working, nodes, intensity);
    let (congestion, overloaded) = test_network(&working, intensity);
    proof {
        let draws = choose|draws: Seq<u64>| is_sample(topology_links(*graph), draws) && left == #[trigger] survivors(topology_links(*graph), draws);
        assert(routed(unladen(survivors(topology_links(*graph), draws)), nodes@, intensity@, topology_links(working)));
        lemma_unladen(left);
        lemma_same_reach(left, unladen(left), nodes@);
        assert(routed_as_found(unladen(survivors(topology_links(*graph), draws)), left_order, nodes@, intensity@, topology_links(working)));
    }
    Trial { joined, congestion, overloaded }
}

/// The counts that the trials add up to.
#[derive(Clone, Copy, Debug, PartialEq, Eq, Structural)]
pub struct Tally {
    /// The number of trials.
    pub trials: usize,
    /// The trials in which some pair of nodes had no path.
    pub failed: usize,
    /// The trials in which every pair had a path and the congestion stayed
    /// within the threshold.
    pub reliable: usize,
    /// The overloaded links of all trials together.
    pub overloaded: u128,
}

impl Tally {
    /// Whether the counts fit together: no trial is both failed and reliable,
    /// and the overloaded links are those of that many trials.
    pub open spec fn wf(self) -> bool {
        &&& self.failed + self.reliable <= self.trials
        &&& self.overloaded <= self.trials * usize::MAX
    }

    /// The counts after one more trial. Whether the congestion stayed within
    /// the threshold counts only for a trial that is joined.
    pub open spec fn with(self, joined: bool, within: bool, overloaded: usize) -> Tally {
        Tally {
            trials: (self.trials + 1) as usize,
            failed: if joined {
                self.failed
            } else {
                (self.failed + 1) as usize
            },
            reliable: if joined && within {
                (self.reliable + 1) as usize
            } else {
                self.reliable
            },
            overloaded: (self.overloaded + overloaded) as u128,
        }
    }

    /// The counts of no trials.
    pub fn new() -> (tally: Tally)
        ensures
            tally == (Tally { trials: 0, failed: 0, reliable: 0, overloaded: 0 }),
            tally.wf(),
    {
        Tally { trials: 0, failed: 0, reliable: 0, overloaded: 0 }
    }

    /// Counts one more trial.
    pub fn record(&mut self, joined: bool, within: bool, overloaded: usize)
        requires
            old(self).wf(),
            old(self).trials < usize::MAX,
        ensures
            *final(self) == old(self).with(joined, within, overloaded),
            final(self).wf(),
            final(self).trials == old(self).trials + 1,
            final(self).overloaded == old(self).overloaded + overloaded,
    {
        assert(self.overloaded + overloaded <= (self.trials + 1) * usize::MAX) by (nonlinear_arith)
            requires
                self.overloaded <= self.trials * usize::MAX,
                overloaded <= usize::MAX,
        ;
        assert((self.trials + 1) * usize::MAX <= u128::MAX) by (nonlinear_arith)
            requires
                self.trials + 1 <= usize::MAX,
                usize::MAX <= 0xffff_ffff_ffff_ffff,
        ;
        self.trials = self.trials + 1;
        if joined {
            if within {
                self.reliable = self.reliable + 1;
            }
        } else {
            self.failed = self.failed + 1;
        }
        self.overloaded = self.overloaded + overloaded as u128;
    }

    /// The number of trials in which every pair of nodes had a path.
    pub fn connected(&self) -> (count: usize)
        requires
            self.wf(),
        ensures
            count == self.trials - self.failed,
            self.reliable <= count,
    {
        self.trials - self.failed
    }
}

/// The counts that the trials `runs` add up to, where `verdicts` says of
/// each whether its congestion stayed within the threshold.
pub open spec fn tally_of(runs: Seq<Trial>, verdicts: Seq<bool>) -> Tally
    decreases runs.len(),
{
    if runs.len() == 0 {
        Tally { trials: 0, failed: 0, reliable: 0, overloaded: 0 }
    } else {
        tally_of(runs.drop_last(), verdicts.drop_last()).with(runs.last().joined, verdicts.last(), runs.last().overloaded)
    }
}

/// What the congestion metric is made of in each of the trials that are
/// joined, in their order.
pub open spec fn samples_of(runs: Seq<Trial>) -> Seq<Congestion>
    decreases runs.len(),
{
    if runs.len() == 0 {
        Seq::empty()
    } else if runs.last().joined {
        samples_of(runs.drop_last()).push(runs.last().congestion)
    } else {
        samples_of(runs.drop_last())
    }
}

/// An estimate of the reliability of a topology.
#[derive(Debug)]
pub struct Estimate {
    /// The counts of the trials. The reliability is `reliable` out of
    /// `trials`.
    pub tally: Tally,
    /// What the congestion metric is made of in each of the joined trials.
    /// Without such a trial there is no mean congestion.
    pub samples: Vec<Congestion>,
}

/// Whether `estimate` sums up the trials `runs` with the verdicts `verdicts`.
pub open spec fn sums_up(estimate: Estimate, runs: Seq<Trial>, verdicts: Seq<bool>) -> bool {
    &&& verdicts.len() == runs.len()
    &&& estimate.tally == tally_of(runs, verdicts)
    &&& estimate.samples@ == samples_of(runs)
}

/// Estimates the reliability of a topology from `iterations` trials. For
/// each trial in which every pair of nodes had a path, `within` says whether
/// its congestion stayed within the threshold.
///
/// The sum of the demand matrix must fit in `u64`.
pub fn reliability<F: Fn(&Congestion) -> bool>(
    graph: &Topology,
    nodes: &Vec<u32>,
    intensity: &Intensity,
    iterations: usize,
    within: F,
) -> (estimate: Estimate)
    requires
        nodes.len() <= intensity@.len(),
        total(intensity@) <= u64::MAX,
        forall|congestion: &Congestion| call_requires(within, (congestion,)),
    ensures
        estimate.tally.wf(),
        estimate.tally.trials == iterations,
        estimate.samples@.len() == iterations - estimate.tally.failed,
        estimate.tally.reliable <= estimate.samples@.len(),
        exists|runs: Seq<Trial>, verdicts: Seq<bool>|
            {
                &&& runs.len() == iterations
                &&& #[trigger] sums_up(estimate, runs, verdicts)
                &&& forall|k: int| 0 <= k < runs.len() ==> trial_of(topology_links(*graph), nodes@, intensity@, #[trigger] runs[k])
                &&& forall|k: int|
                    0 <= k < runs.len() ==> trial_as_found(topology_links(*graph), topology_order(*graph), nodes@, intensity@, #[trigger] runs[k])
                &&& forall|k: int| 0 <= k < runs.len() && (#[trigger] runs[k]).joined ==> call_ensures(within, (&runs[k].congestion,), verdicts[k])
            },
{
    let mut tally = Tally::new();
    let mut samples: Vec<Congestion> = Vec::new();
    let ghost mut runs: Seq<Trial> = Seq::empty();
    let ghost mut verdicts: Seq<bool> = Seq::empty();
    let mut done: usize = 0;
    while done < iterations
        invariant
            done <= iterations,
            nodes.len() <= intensity@.len(),
            total(intensity@) <= u64::MAX,
            forall|congestion: &Congestion| call_requires(within, (congestion,)),
            tally.wf(),
            tally.trials == done,
            runs.len() == done,
            verdicts.len() == done,
            tally == tally_of(runs, verdicts),
            samples@ == samples_of(runs),
            samples@.len() == done - tally.failed,
            tally.reliable <= samples@.len(),
            forall|k: int| 0 <= k < runs.len() ==> trial_of(topology_links(*graph), nodes@, intensity@, #[trigger] runs[k]),
            forall|k: int| 0 <= k < runs.len() ==> trial_as_found(topology_links(*graph), topology_order(*graph), nodes@, intensity@, #[trigger] runs[k]),
            forall|k: int| 0 <= k < runs.len() && (#[trigger] runs[k]).joined ==> call_ensures(within, (&runs[k].congestion,), verdicts[k]),
        decreases iterations - done,
    {
        let outcome = trial(graph, nodes, intensity);
        let ghost earlier = runs;
        let ghost judged = verdicts;
        let mut verdict: bool = false;
        if outcome.joined {
            verdict = within(&outcome.congestion);
        }
        tally.record(outcome.joined, verdict, outcome.overloaded);
        proof {
            runs = earlier.push(outcome);
            verdicts = judged.push(verdict);
            assert(runs.drop_last() =~= earlier);
            assert(verdicts.drop_last() =~= judged);
        }
        if outcome.joined {
            samples.push(outcome.congestion);
        }
        done = done + 1;
    }
    let estimate = Estimate { tally, samples };
    assert(sums_up(estimate, runs, verdicts));
    estimate
}

} // verus!
