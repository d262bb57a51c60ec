//! Lightweight per-tree counters.
use vstd::prelude::*;

verus! {

#[derive(Debug)]
pub struct BehaviorTreeMetrics {
    pub tick_count: u64,
    pub node_start_count: u64,
    pub node_finish_count: u64,
    pub abort_count: u64,
    pub service_run_count: u64,
    pub last_tick_micros: u64,
    pub node_execution_counts: Vec<u64>,
}

impl BehaviorTreeMetrics {
    /// All counters zero, with one execution counter per node.
    pub fn for_node_count(node_count: usize) -> (r: Self)
        ensures
            r.tick_count == 0,
            r.node_start_count == 0,
            r.node_finish_count == 0,
            r.abort_count == 0,
            r.service_run_count == 0,
            r.last_tick_micros == 0,
            r.node_execution_counts@ == Seq::new(node_count as nat, |i: int| 0u64),
    {
        let mut counts: Vec<u64> = Vec::new();
        let mut i: usize = 0;
        while i < node_count
            invariant
                i <= node_count,
                counts@ == Seq::new(i as nat, |k: int| 0u64),
            decreases node_count - i,
        {
            counts.push(0);
            assert(counts@ =~= Seq::new((i + 1) as nat, |k: int| 0u64));
            i = i + 1;
        }
        BehaviorTreeMetrics {
            tick_count: 0,
            node_start_count: 0,
            node_finish_count: 0,
            abort_count: 0,
            service_run_count: 0,
            last_tick_micros: 0,
            node_execution_counts: counts,
        }
    }
}

impl Default for BehaviorTreeMetrics {
    fn default() -> (r: Self)
        ensures
            r.tick_count == 0,
            r.node_start_count == 0,
            r.node_finish_count == 0,
            r.abort_count == 0,
            r.service_run_count == 0,
            r.last_tick_micros == 0,
            r.node_execution_counts@ == Seq::<u64>::empty(),
    {
        BehaviorTreeMetrics {
            tick_count: 0,
            node_start_count: 0,
            node_finish_count: 0,
            abort_count: 0,
            service_run_count: 0,
            last_tick_micros: 0,
            node_execution_counts: Vec::new(),
        }
    }
}

} // verus!
