//! Per-entity runtime state: configuration, run states, per-node slots,
//! metrics and the bounded trace.
//!
//! Times are whole microseconds since the application clock started (`i64`).
use vstd::prelude::*;

use crate::blackboard::{BlackboardValue, BlackboardValueType};
use crate::definition::{BehaviorTreeDefinitionId, NodeId};
use crate::handlers::ActionTicket;
use crate::nodes::BehaviorStatus;
use crate::debug::BehaviorTreeTrace;
use crate::metrics::BehaviorTreeMetrics;
use crate::text::same_text;

verus! {

#[derive(Clone, Copy, Debug, PartialEq, Eq, Structural, Hash)]
pub enum TickMode {
    EveryFrame,
    Interval { period_micros: i64, phase_offset_micros: i64 },
    Manual,
}

impl Default for TickMode {
    fn default() -> (r: Self)
        ensures
            r == TickMode::EveryFrame,
    {
        TickMode::EveryFrame
    }
}

#[derive(Clone, Copy, Debug, PartialEq, Eq, Structural, Hash)]
pub struct BehaviorTreeConfig {
    pub tick_mode: TickMode,
    pub restart_on_completion: bool,
    pub preserve_blackboard_on_definition_change: bool,
    pub emit_lifecycle_messages: bool,
    pub emit_blackboard_messages: bool,
    pub trace_capacity: usize,
}

impl Default for BehaviorTreeConfig {
    /// Every-frame ticking, no restart after completion, values preserved
    /// across definition changes, no messages, a trace of 64 entries.
    fn default() -> (r: Self)
        ensures
            r == (BehaviorTreeConfig {
                tick_mode: TickMode::EveryFrame,
                restart_on_completion: false,
                preserve_blackboard_on_definition_change: true,
                emit_lifecycle_messages: false,
                emit_blackboard_messages: false,
                trace_capacity: 64,
            }),
    {
        BehaviorTreeConfig {
            tick_mode: TickMode::EveryFrame,
            restart_on_completion: false,
            preserve_blackboard_on_definition_change: true,
            emit_lifecycle_messages: false,
            emit_blackboard_messages: false,
            trace_capacity: 64,
        }
    }
}

#[derive(Clone, Copy, Debug, PartialEq, Eq, Structural, Hash)]
pub enum BehaviorTreeRunState {
    Idle,
    Running,
    Success,
    Failure,
    Deactivated,
}

impl Default for BehaviorTreeRunState {
    fn default() -> (r: Self)
        ensures
            r == BehaviorTreeRunState::Idle,
    {
        BehaviorTreeRunState::Idle
    }
}

/// The run state that a status leaves behind.
pub open spec fn run_state_of(status: BehaviorStatus) -> BehaviorTreeRunState {
    match status {
        BehaviorStatus::Success => BehaviorTreeRunState::Success,
        BehaviorStatus::Failure => BehaviorTreeRunState::Failure,
        BehaviorStatus::Running => BehaviorTreeRunState::Running,
    }
}

pub fn run_state_from(status: BehaviorStatus) -> (r: BehaviorTreeRunState)
    ensures
        r == run_state_of(status),
{
    match status {
        BehaviorStatus::Success => BehaviorTreeRunState::Success,
        BehaviorStatus::Failure => BehaviorTreeRunState::Failure,
        BehaviorStatus::Running => BehaviorTreeRunState::Running,
    }
}

/// `t` clamped to the range of `i64`.
pub open spec fn clamp_time(t: int) -> i64 {
    if t > i64::MAX {
        i64::MAX
    } else if t < i64::MIN {
        i64::MIN
    } else {
        t as i64
    }
}

/// The instant `delay` after `now`, held at the ends of the clock's range.
pub fn time_after(now: i64, delay: i64) -> (r: i64)
    ensures
        r == clamp_time(now + delay),
{
    let t: i128 = now as i128 + delay as i128;
    if t > i64::MAX as i128 {
        i64::MAX
    } else if t < i64::MIN as i128 {
        i64::MIN
    } else {
        t as i64
    }
}

/// The shortest period an interval may have: one millisecond.
pub const MIN_PERIOD_MICROS: i64 = 1000;

/// An interval, raised to at least one millisecond.
pub open spec fn period_of(interval: i64) -> i64 {
    if interval < MIN_PERIOD_MICROS {
        MIN_PERIOD_MICROS
    } else {
        interval
    }
}

pub fn effective_period(interval: i64) -> (r: i64)
    ensures
        r == period_of(interval),
        r >= MIN_PERIOD_MICROS,
{
    if interval < MIN_PERIOD_MICROS {
        MIN_PERIOD_MICROS
    } else {
        interval
    }
}

/// A value a node keeps for itself under a text key.
#[derive(Debug)]
pub struct NodeMemoryEntry {
    pub key: String,
    pub value: BlackboardValue,
}

/// The runtime slot of one node.
#[derive(Debug)]
pub struct NodeRuntimeState {
    pub status: BehaviorTreeRunState,
    pub cursor: usize,
    pub entered_at: i64,
    pub finished_at: i64,
    pub cooldown_until: i64,
    pub delay_until: Option<i64>,
    pub counter: u32,
    pub limiter_used: u32,
    pub service_due_at: Vec<i64>,
    pub node_memory: Vec<NodeMemoryEntry>,
    pub async_ticket: Option<ActionTicket>,
    pub async_resolution: Option<BehaviorStatus>,
    pub last_result: Option<BehaviorStatus>,
    pub execution_count: u64,
}

impl NodeRuntimeState {
    /// A slot as it is before the node ever runs.
    pub open spec fn is_fresh(self) -> bool {
        &&& self.status == BehaviorTreeRunState::Idle
        &&& self.cursor == 0
        &&& self.entered_at == 0
        &&& self.finished_at == 0
        &&& self.cooldown_until == 0
        &&& self.delay_until is None
        &&& self.counter == 0
        &&& self.limiter_used == 0
        &&& self.service_due_at@.len() == 0
        &&& self.node_memory@.len() == 0
        &&& self.async_ticket is None
        &&& self.async_resolution is None
        &&& self.last_result is None
        &&& self.execution_count == 0
    }
}

impl NodeRuntimeState {
    /// A slot as a restart leaves it: fresh, but for the cooldown deadline
    /// and the limiter count, which outlast restarts.
    pub open spec fn is_restarted(self) -> bool {
        &&& self.status == BehaviorTreeRunState::Idle
        &&& self.cursor == 0
        &&& self.entered_at == 0
        &&& self.finished_at == 0
        &&& self.delay_until is None
        &&& self.counter == 0
        &&& self.service_due_at@.len() == 0
        &&& self.node_memory@.len() == 0
        &&& self.async_ticket is None
        &&& self.async_resolution is None
        &&& self.last_result is None
        &&& self.execution_count == 0
    }

    /// This slot restarted: fresh but for its cooldown deadline and limiter
    /// count.
    pub fn restarted(&self) -> (r: Self)
        ensures
            r.is_restarted(),
            r.cooldown_until == self.cooldown_until,
            r.limiter_used == self.limiter_used,
    {
        NodeRuntimeState {
            status: BehaviorTreeRunState::Idle,
            cursor: 0,
            entered_at: 0,
            finished_at: 0,
            cooldown_until: self.cooldown_until,
            delay_until: None,
            counter: 0,
            limiter_used: self.limiter_used,
            service_due_at: Vec::new(),
            node_memory: Vec::new(),
            async_ticket: None,
            async_resolution: None,
            last_result: None,
            execution_count: 0,
        }
    }
}

impl Default for NodeRuntimeState {
    fn default() -> (r: Self)
        ensures
            r.is_fresh(),
    {
        NodeRuntimeState {
            status: BehaviorTreeRunState::Idle,
            cursor: 0,
            entered_at: 0,
            finished_at: 0,
            cooldown_until: 0,
            delay_until: None,
            counter: 0,
            limiter_used: 0,
            service_due_at: Vec::new(),
            node_memory: Vec::new(),
            async_ticket: None,
            async_resolution: None,
            last_result: None,
            execution_count: 0,
        }
    }
}

/// `i` is the first memory entry with key `key`.
pub open spec fn first_entry(entries: Seq<NodeMemoryEntry>, key: Seq<char>, i: int) -> bool {
    &&& 0 <= i < entries.len()
    &&& entries[i].key@ == key
    &&& forall|j: int| 0 <= j < i ==> (#[trigger] entries[j]).key@ != key
}

/// The value stored under `key` (its first entry), if any.
pub open spec fn memory_lookup(entries: Seq<NodeMemoryEntry>, key: Seq<char>) -> Option<BlackboardValue> {
    if exists|i: int| first_entry(entries, key, i) {
        Some(entries[choose|i: int| first_entry(entries, key, i)].value)
    } else {
        None
    }
}

/// The entries without those whose key is `key`, in order.
pub open spec fn without_key(entries: Seq<NodeMemoryEntry>, key: Seq<char>) -> Seq<NodeMemoryEntry>
    decreases entries.len(),
{
    if entries.len() == 0 {
        Seq::empty()
    } else {
        let rest = without_key(entries.drop_last(), key);
        if entries.last().key@ == key {
            rest
        } else {
            rest.push(entries.last())
        }
    }
}

proof fn lemma_first_entry_unique(entries: Seq<NodeMemoryEntry>, key: Seq<char>, i: int, j: int)
    requires
        first_entry(entries, key, i),
        first_entry(entries, key, j),
    ensures
        i == j,
{
    if i < j {
        assert(entries[i].key@ != key);
    } else if j < i {
        assert(entries[j].key@ != key);
    }
}

fn find_entry(entries: &Vec<NodeMemoryEntry>, key: &str) -> (r: Option<usize>)
    ensures
        match r {
            Some(i) => first_entry(entries@, key@, i as int),
            None => (!exists|i: int| first_entry(entries@, key@, i)) && forall|j: int|
                0 <= j < entries@.len() ==> (#[trigger] entries@[j]).key@ != key@,
        },
{
    let mut i: usize = 0;
    while i < entries.len()
        invariant
            i <= entries@.len(),
            forall|j: int| 0 <= j < i ==> (#[trigger] entries@[j]).key@ != key@,
        decreases entries@.len() - i,
    {
        if same_text(entries[i].key.as_str(), key) {
            return Some(i);
        }
        i = i + 1;
    }
    proof {
        assert forall|c: int| !first_entry(entries@, key@, c) by {
            if 0 <= c < entries@.len() {
                assert(entries@[c].key@ != key@);
            }
        }
    }
    None
}

impl NodeRuntimeState {
    /// The value the node keeps under `key`.
    pub fn memory(&self, key: &str) -> (r: Option<&BlackboardValue>)
        ensures
            crate::blackboard::deref_value(r) == memory_lookup(self.node_memory@, key@),
    {
        match find_entry(&self.node_memory, key) {
            Some(i) => {
                proof {
                    let c = choose|c: int| first_entry(self.node_memory@, key@, c);
                    lemma_first_entry_unique(self.node_memory@, key@, i as int, c);
                }
                Some(&self.node_memory[i].value)
            },
            None => None,
        }
    }

    /// Replaces the value of the first entry under `key`, or appends one.
    pub fn set_memory(&mut self, key: String, value: BlackboardValue)
        ensures
            match find_first(old(self).node_memory@, key@) {
                Some(i) => final(self).node_memory@ == old(self).node_memory@.update(
                    i,
                    NodeMemoryEntry { key: old(self).node_memory@[i].key, value },
                ),
                None => final(self).node_memory@ == old(self).node_memory@.push(NodeMemoryEntry { key, value }),
            },
            final(self).node_memory@.len() >= 1,
            memory_lookup(final(self).node_memory@, key@) == Some(value),
            *final(self) == (NodeRuntimeState { node_memory: final(self).node_memory, ..*old(self) }),
    {
        let ghost before = self.node_memory@;
        match find_entry(&self.node_memory, key.as_str()) {
            Some(i) => {
                proof {
                    let c = choose|c: int| first_entry(before, key@, c);
                    lemma_first_entry_unique(before, key@, i as int, c);
                }
                let old_key = self.node_memory[i].key.clone();
                self.node_memory.set(i, NodeMemoryEntry { key: old_key, value });
                proof {
                    assert(first_entry(self.node_memory@, key@, i as int));
                    let c = choose|c: int| first_entry(self.node_memory@, key@, c);
                    lemma_first_entry_unique(self.node_memory@, key@, i as int, c);
                }
            },
            None => {
                let ghost k = key@;
                self.node_memory.push(NodeMemoryEntry { key, value });
                proof {
                    let n = before.len() as int;
                    assert forall|j: int| 0 <= j < n implies (#[trigger] self.node_memory@[j]).key@ != k by {
                        assert(before[j] == self.node_memory@[j]);
                    }
                    assert(first_entry(self.node_memory@, k, n));
                    let c = choose|c: int| first_entry(self.node_memory@, k, c);
                    lemma_first_entry_unique(self.node_memory@, k, n, c);
                }
            },
        }
    }

    /// Drops every entry under `key`.
    pub fn clear_memory(&mut self, key: &str)
        ensures
            final(self).node_memory@ == without_key(old(self).node_memory@, key@),
            *final(self) == (NodeRuntimeState { node_memory: final(self).node_memory, ..*old(self) }),
    {
        let mut kept: Vec<NodeMemoryEntry> = Vec::new();
        let mut i: usize = 0;
        while i < self.node_memory.len()
            invariant
                i <= self.node_memory@.len(),
                kept@ == without_key(self.node_memory@.take(i as int), key@),
            decreases self.node_memory@.len() - i,
        {
            let ghost t = self.node_memory@.take(i + 1);
            assert(t.drop_last() == self.node_memory@.take(i as int));
            assert(t.last() == self.node_memory@[i as int]);
            if !same_text(self.node_memory[i].key.as_str(), key) {
                let e = clone_entry(&self.node_memory[i]);
                kept.push(e);
            }
            i = i + 1;
        }
        assert(self.node_memory@.take(i as int) == self.node_memory@);
        self.node_memory = kept;
    }
}

/// The position of the first entry under `key`.
pub open spec fn find_first(entries: Seq<NodeMemoryEntry>, key: Seq<char>) -> Option<int> {
    if exists|i: int| first_entry(entries, key, i) {
        Some(choose|i: int| first_entry(entries, key, i))
    } else {
        None
    }
}

fn clone_entry(e: &NodeMemoryEntry) -> (r: NodeMemoryEntry)
    ensures
        r == *e,
{
    NodeMemoryEntry { key: e.key.clone(), value: e.value.clone() }
}

/// Hands out the node's async ticket, drawing a new one from `counter` the
/// first time.
pub fn request_async_ticket(state: &mut NodeRuntimeState, counter: &mut u64) -> (r: ActionTicket)
    requires
        old(state).async_ticket is None ==> *old(counter) < u64::MAX,
    ensures
        match old(state).async_ticket {
            Some(t) => r == t && *final(counter) == *old(counter) && *final(state) == *old(state),
            None => {
                &&& *final(counter) == *old(counter) + 1
                &&& r == ActionTicket(*final(counter))
                &&& *final(state) == (NodeRuntimeState { async_ticket: Some(r), ..*old(state) })
            },
        },
{
    if let Some(ticket) = state.async_ticket {
        return ticket;
    }
    *counter = *counter + 1;
    let ticket = ActionTicket(*counter);
    state.async_ticket = Some(ticket);
    ticket
}

/// Takes the async resolution delivered to the node, if any.
pub fn take_async_resolution(state: &mut NodeRuntimeState) -> (r: Option<BehaviorStatus>)
    ensures
        r == old(state).async_resolution,
        *final(state) == (NodeRuntimeState { async_resolution: None, ..*old(state) }),
{
    let r = state.async_resolution;
    state.async_resolution = None;
    r
}


/// A call the tick engine made into the application's handlers, as the
/// engine records it.
pub enum HostCall {
    /// An action's start callback (`starting`) or tick callback, and the
    /// status it returned.
    Action { node: NodeId, starting: bool, result: BehaviorStatus },
    /// An action's abort callback.
    Abort { node: NodeId },
    /// The callback of the node's service at `index`, and whether the
    /// blackboard's revision moved while it ran.
    Service { node: NodeId, index: usize, changed: bool },
}

/// The node a handler call concerns.
pub open spec fn call_node(c: HostCall) -> NodeId {
    match c {
        HostCall::Action { node, .. } => node,
        HostCall::Abort { node } => node,
        HostCall::Service { node, .. } => node,
    }
}

/// The runtime state of one controlled entity.
pub struct BehaviorTreeInstance {
    pub definition: BehaviorTreeDefinitionId,
    pub status: BehaviorTreeRunState,
    pub active_path: Vec<NodeId>,
    pub last_running_leaf: Option<NodeId>,
    pub last_abort_reason: String,
    pub wake_requested: bool,
    pub wake_reason: String,
    pub next_tick_at: i64,
    pub observed_blackboard_revision: u64,
    pub action_ticket_counter: u64,
    pub metrics: BehaviorTreeMetrics,
    pub trace: BehaviorTreeTrace,
    pub node_states: Vec<NodeRuntimeState>,
    /// Every handler call the engine has made for this instance, in order.
    pub host_calls: Ghost<Seq<HostCall>>,
}

impl BehaviorTreeInstance {
    /// Slots, runtime storage and counters are sized for a definition of
    /// `node_count` nodes; `trace_capacity` bounds the trace.
    pub open spec fn sized_for(self, node_count: nat) -> bool {
        &&& self.node_states@.len() == node_count
        &&& self.metrics.node_execution_counts@.len() == node_count
    }

    /// A fresh instance: idle, every slot fresh, and a wake requested so that
    /// it runs once as soon as it can.
    pub fn new(definition: BehaviorTreeDefinitionId, node_count: usize, trace_capacity: usize) -> (r: Self)
        ensures
            r.definition == definition,
            r.status == BehaviorTreeRunState::Idle,
            r.active_path@.len() == 0,
            r.last_running_leaf is None,
            r.last_abort_reason@.len() == 0,
            r.wake_requested,
            r.wake_reason@ == "initial activation"@,
            r.next_tick_at == 0,
            r.observed_blackboard_revision == 0,
            r.action_ticket_counter == 0,
            r.metrics.tick_count == 0,
            r.metrics.node_start_count == 0,
            r.metrics.node_finish_count == 0,
            r.metrics.abort_count == 0,
            r.metrics.service_run_count == 0,
            r.metrics.last_tick_micros == 0,
            r.metrics.node_execution_counts@ == Seq::new(node_count as nat, |i: int| 0u64),
            r.trace.capacity == trace_capacity,
            r.trace.entries@.len() == 0,
            r.host_calls@.len() == 0,
            r.sized_for(node_count as nat),
            forall|i: int| 0 <= i < node_count ==> (#[trigger] r.node_states@[i]).is_fresh(),
    {
        let mut node_states: Vec<NodeRuntimeState> = Vec::new();
        let mut i: usize = 0;
        while i < node_count
            invariant
                i <= node_count,
                node_states@.len() == i,
                forall|k: int| 0 <= k < i ==> (#[trigger] node_states@[k]).is_fresh(),
            decreases node_count - i,
        {
            node_states.push(NodeRuntimeState::default());
            i = i + 1;
        }
        BehaviorTreeInstance {
            definition,
            status: BehaviorTreeRunState::Idle,
            active_path: Vec::new(),
            last_running_leaf: None,
            last_abort_reason: String::new(),
            wake_requested: true,
            wake_reason: String::from_str("initial activation"),
            next_tick_at: 0,
            observed_blackboard_revision: 0,
            action_ticket_counter: 0,
            metrics: BehaviorTreeMetrics::for_node_count(node_count),
            trace: BehaviorTreeTrace { capacity: trace_capacity, entries: Vec::new() },
            node_states,
            host_calls: Ghost(Seq::empty()),
        }
    }

    /// Whether the instance is sized for a definition of `node_count` nodes.
    pub fn fits(&self, node_count: usize) -> (r: bool)
        ensures
            r == self.sized_for(node_count as nat),
    {
        self.node_states.len() == node_count && self.metrics.node_execution_counts.len() == node_count
    }

    /// Draws the next ticket number.
    pub fn next_action_ticket(&mut self) -> (r: ActionTicket)
        requires
            old(self).action_ticket_counter < u64::MAX,
        ensures
            *final(self) == (BehaviorTreeInstance {
                action_ticket_counter: (old(self).action_ticket_counter + 1) as u64,
                ..*old(self)
            }),
            r == ActionTicket(final(self).action_ticket_counter),
    {
        self.action_ticket_counter = self.action_ticket_counter + 1;
        ActionTicket(self.action_ticket_counter)
    }
}

} // verus!
