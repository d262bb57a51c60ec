//! The tick engine: one traversal of a tree definition against an entity's
//! runtime state, calling back into the registered handlers.
use vstd::prelude::*;

use crate::blackboard::{
    clone_opt_value, BehaviorTreeBlackboard, BlackboardChange, BlackboardKeyId, EntityBits,
};
use crate::debug::{BehaviorTreeTraceEntry, TraceKind};
use crate::definition::{
    children_in_range, graph, is_path, lemma_outside_child, lemma_reach_split, path_step,
    ranked_by, reachable, some_rank, BehaviorTreeDefinition, DefinitionView, NodeId,
};
use crate::handlers::{ActionKey, ConditionKey, ServiceKey};
use crate::messages::{
    BlackboardValueChanged, BranchAborted, NodeFinished, NodeStarted, RuntimeMessageBuffer,
    TreeCompleted,
};
use crate::nodes::{
    threshold_reached, AbortPolicy, BehaviorStatus, DecoratorKind, DecoratorKindView, NodeKind,
    NodeKindView, ParallelPolicy, ParallelThreshold, SelectorKind, SequenceKind, ServiceBinding,
};
use crate::runtime::{
    clamp_time, effective_period, period_of, run_state_from, run_state_of, time_after,
    BehaviorTreeConfig, BehaviorTreeInstance, BehaviorTreeRunState, call_node, HostCall, NodeRuntimeState, TickMode,
};
use crate::text::joined3;

verus! {

/// The application's registered handlers, as the tick engine calls them.
///
/// A tree names its leaves' and services' behaviour by key; the
/// application registers the code behind each key and implements this trait
/// to run it (with whatever world access that code needs). The engine
/// promises nothing about what a handler does, and assumes nothing: the
/// engine's guarantees hold whatever the handlers return or write. Every
/// action and service callback the engine makes is recorded in the
/// instance's `host_calls` log, over which the tick contracts state which
/// callbacks run.
pub trait TreeHost {
    /// Whether an action handler is registered under `key`.
    fn has_action(&self, key: &ActionKey) -> bool;

    /// Runs the action's start callback (`starting`) or its tick callback.
    fn run_action(
        &mut self,
        definition: &BehaviorTreeDefinition,
        node: NodeId,
        key: &ActionKey,
        starting: bool,
        blackboard: &mut BehaviorTreeBlackboard,
        node_state: &mut NodeRuntimeState,
        ticket_counter: &mut u64,
        wake_requested: &mut bool,
        wake_reason: &mut String,
    ) -> BehaviorStatus;

    /// Runs the action's abort callback, if it has one.
    fn abort_action(
        &mut self,
        definition: &BehaviorTreeDefinition,
        node: NodeId,
        key: &ActionKey,
        blackboard: &mut BehaviorTreeBlackboard,
        node_state: &mut NodeRuntimeState,
        ticket_counter: &mut u64,
        wake_requested: &mut bool,
        wake_reason: &mut String,
    );

    /// Evaluates the condition registered under `key`; `false` when none is.
    fn evaluate_condition(
        &mut self,
        definition: &BehaviorTreeDefinition,
        node: NodeId,
        key: &ConditionKey,
        blackboard: &BehaviorTreeBlackboard,
    ) -> bool;

    /// Runs the service registered under `key`, if one is.
    fn run_service(
        &mut self,
        definition: &BehaviorTreeDefinition,
        node: NodeId,
        key: &ServiceKey,
        blackboard: &mut BehaviorTreeBlackboard,
        node_state: &mut NodeRuntimeState,
        wake_requested: &mut bool,
        wake_reason: &mut String,
    );
}

/// What a tick needs to know about its surroundings.
#[derive(Clone, Copy, Debug)]
pub struct TickEnv {
    pub entity: EntityBits,
    pub frame: u64,
    pub now: i64,
    pub config: BehaviorTreeConfig,
}

/// Lifecycle messages are only emitted when they are on, and blackboard
/// messages are left to the end of the tick.
pub open spec fn messages_kept(env: TickEnv, a: RuntimeMessageBuffer, b: RuntimeMessageBuffer) -> bool {
    &&& b.blackboard_changed@ == a.blackboard_changed@
    &&& !env.config.emit_lifecycle_messages ==> {
        &&& b.tree_completed@ == a.tree_completed@
        &&& b.node_started@ == a.node_started@
        &&& b.node_finished@ == a.node_finished@
        &&& b.branch_aborted@ == a.branch_aborted@
    }
}

/// The instance fits an executable definition.
pub open spec fn ready(def: DefinitionView, inst: BehaviorTreeInstance) -> bool {
    &&& def.executable()
    &&& inst.sized_for(def.nodes.len())
}

/// A rank of the node in an executable definition; children rank lower.
pub open spec fn node_rank(def: DefinitionView, n: int) -> nat {
    some_rank(graph(def.nodes))[n]
}

/// Slots of nodes that `node` does not reach are as they were.
pub open spec fn outside_unchanged(
    def: DefinitionView,
    node: int,
    a: Seq<NodeRuntimeState>,
    b: Seq<NodeRuntimeState>,
) -> bool {
    &&& a.len() == b.len()
    &&& forall|j: int| 0 <= j < a.len() && !reachable(graph(def.nodes), node, j) ==> #[trigger] b[j] == a[j]
}

proof fn lemma_ranked(def: DefinitionView)
    requires
        def.executable(),
    ensures
        ranked_by(graph(def.nodes), some_rank(graph(def.nodes))),
{
}

/// Along a path, ranks never grow.
proof fn lemma_path_rank(g: Seq<Seq<NodeId>>, rank: Seq<nat>, p: Seq<int>, k: int)
    requires
        ranked_by(g, rank),
        children_in_range(g),
        is_path(g, p),
        0 <= p[0] < g.len(),
        0 <= k < p.len(),
    ensures
        0 <= p[k] < g.len(),
        rank[p[k]] <= rank[p[0]],
    decreases k,
{
    if k > 0 {
        lemma_path_rank(g, rank, p, k - 1);
        assert(path_step(g, p, k - 1));
        let j = choose|j: int| 0 <= j < g[p[k - 1]].len() && (#[trigger] g[p[k - 1]][j]).0 == p[k];
        assert(rank[g[p[k - 1]][j].0 as int] < rank[p[k - 1]]);
    }
}

/// A child ranks below its parent and never reaches it again.
proof fn lemma_child_misses_parent(def: DefinitionView, node: int, m: int)
    requires
        def.executable(),
        0 <= node < def.nodes.len(),
        0 <= m < def.nodes[node].children.len(),
    ensures
        def.nodes[node].children[m].0 < def.nodes.len(),
        node_rank(def, def.nodes[node].children[m].0 as int) < node_rank(def, node),
        !reachable(graph(def.nodes), def.nodes[node].children[m].0 as int, node),
        def.nodes[node].children[m].0 != node,
{
    let g = graph(def.nodes);
    let rank = some_rank(g);
    let c = def.nodes[node].children[m].0 as int;
    crate::definition::lemma_path_single(g, c);
    assert(g[node] == def.nodes[node].children);
    assert(g[node][m].0 == c);
    assert(rank[c] < rank[node]);
    if reachable(g, c, node) {
        let p = choose|p: Seq<int>| #[trigger] is_path(g, p) && p[0] == c && p.last() == node;
        lemma_path_rank(g, rank, p, p.len() - 1);
    }
}

/// Composes the frame of a child's traversal into the parent's.
proof fn lemma_child_frame(
    def: DefinitionView,
    node: int,
    m: int,
    a: Seq<NodeRuntimeState>,
    b: Seq<NodeRuntimeState>,
    c: Seq<NodeRuntimeState>,
)
    requires
        def.executable(),
        0 <= node < def.nodes.len(),
        0 <= m < def.nodes[node].children.len(),
        outside_unchanged(def, node, a, b),
        outside_unchanged(def, def.nodes[node].children[m].0 as int, b, c),
    ensures
        outside_unchanged(def, node, a, c),
{
    let g = graph(def.nodes);
    assert(g[node] == def.nodes[node].children);
    lemma_outside_child(g, node, m);
}

/// The node reaches itself, so a change to its own slot stays inside.
proof fn lemma_self_frame(def: DefinitionView, node: int, a: Seq<NodeRuntimeState>, b: Seq<NodeRuntimeState>)
    requires
        a.len() == b.len(),
        forall|j: int| 0 <= j < a.len() && j != node ==> #[trigger] b[j] == a[j],
    ensures
        outside_unchanged(def, node, a, b),
{
    crate::definition::lemma_path_single(graph(def.nodes), node);
}

/// Frames of one branch compose.
proof fn lemma_frame_trans(
    def: DefinitionView,
    node: int,
    a: Seq<NodeRuntimeState>,
    b: Seq<NodeRuntimeState>,
    c: Seq<NodeRuntimeState>,
)
    requires
        outside_unchanged(def, node, a, b),
        outside_unchanged(def, node, b, c),
    ensures
        outside_unchanged(def, node, a, c),
{
    assert forall|j: int| 0 <= j < a.len() && !reachable(graph(def.nodes), node, j) implies #[trigger] c[j] == a[j] by {
        assert(c[j] == b[j]);
    }
}

fn push_trace(
    instance: &mut BehaviorTreeInstance,
    env: &TickEnv,
    node: NodeId,
    kind: TraceKind,
    status: Option<BehaviorStatus>,
    note: String,
)
    ensures
        final(instance).host_calls == old(instance).host_calls,
        final(instance).node_states@ == old(instance).node_states@,
        final(instance).metrics == old(instance).metrics,
        final(instance).definition == old(instance).definition,
        final(instance).wake_requested == old(instance).wake_requested,
        final(instance).last_abort_reason == old(instance).last_abort_reason,
        final(instance).last_running_leaf == old(instance).last_running_leaf,
        final(instance).trace.entries@ == crate::debug::trace_after_push(
            old(instance).trace.entries@,
            old(instance).trace.capacity,
            BehaviorTreeTraceEntry { frame: env.frame, node, kind, status, note },
        ),
        final(instance).trace.capacity == old(instance).trace.capacity,
        final(instance).status == old(instance).status,
        final(instance).active_path@ == old(instance).active_path@,
        final(instance).wake_reason == old(instance).wake_reason,
        final(instance).next_tick_at == old(instance).next_tick_at,
        final(instance).observed_blackboard_revision == old(instance).observed_blackboard_revision,
        final(instance).action_ticket_counter == old(instance).action_ticket_counter,
{
    instance.trace.push(BehaviorTreeTraceEntry { frame: env.frame, node, kind, status, note });
}

/// Marks the node entered: running, entered now, one more execution.
fn start_node(
    instance: &mut BehaviorTreeInstance,
    messages: &mut RuntimeMessageBuffer,
    env: &TickEnv,
    def: &BehaviorTreeDefinition,
    node: NodeId,
)
    requires
        ready(def@, *old(instance)),
        node.0 < def@.nodes.len(),
    ensures
        final(instance).metrics.abort_count == old(instance).metrics.abort_count,
        final(messages).branch_aborted@ == old(messages).branch_aborted@,
        final(instance).metrics.node_start_count == old(instance).metrics.node_start_count.saturating_add(1),
        final(instance).metrics.node_execution_counts@ == old(instance).metrics.node_execution_counts@.update(
            node.0 as int,
            old(instance).metrics.node_execution_counts@[node.0 as int].saturating_add(1),
        ),
        final(messages).node_started@ == (if env.config.emit_lifecycle_messages {
            old(messages).node_started@.push(
                NodeStarted { entity: env.entity, node, path: def.nodes@[node.0 as int].path },
            )
        } else {
            old(messages).node_started@
        }),
        final(instance).host_calls == old(instance).host_calls,
        messages_kept(*env, *old(messages), *final(messages)),
        ready(def@, *final(instance)),
        final(instance).definition == old(instance).definition,
        final(instance).wake_requested == old(instance).wake_requested,
        final(instance).last_running_leaf == old(instance).last_running_leaf,
        outside_unchanged(def@, node.0 as int, old(instance).node_states@, final(instance).node_states@),
        final(instance).node_states@ == old(instance).node_states@.update(
            node.0 as int,
            NodeRuntimeState {
                status: BehaviorTreeRunState::Running,
                entered_at: env.now,
                execution_count: final(instance).node_states@[node.0 as int].execution_count,
                ..old(instance).node_states@[node.0 as int]
            },
        ),
        final(instance).node_states@[node.0 as int].execution_count == old(
            instance,
        ).node_states@[node.0 as int].execution_count.saturating_add(1),
{
    let i = node.0 as usize;
    let count = instance.node_states[i].execution_count;
    instance.node_states[i].status = BehaviorTreeRunState::Running;
    instance.node_states[i].entered_at = env.now;
    instance.node_states[i].execution_count = count.saturating_add(1);
    instance.metrics.node_start_count = instance.metrics.node_start_count.saturating_add(1);
    let executions = instance.metrics.node_execution_counts[i];
    instance.metrics.node_execution_counts.set(i, executions.saturating_add(1));
    if env.config.emit_lifecycle_messages {
        messages.node_started.push(
            NodeStarted { entity: env.entity, node, path: def.nodes[i].path.clone() },
        );
    }
    push_trace(instance, env, node, TraceKind::Started, None, String::new());
    proof {
        lemma_self_frame(def@, node.0 as int, old(instance).node_states@, instance.node_states@);
    }
}

/// Marks the node running and reports `Running`.
fn set_running(instance: &mut BehaviorTreeInstance, def: &BehaviorTreeDefinition, node: NodeId) -> (r: BehaviorStatus)
    requires
        node.0 < old(instance).node_states@.len(),
    ensures
        r == BehaviorStatus::Running,
        outside_unchanged(def@, node.0 as int, old(instance).node_states@, final(instance).node_states@),
        *final(instance) == (BehaviorTreeInstance {
            node_states: final(instance).node_states,
            ..*old(instance)
        }),
        final(instance).node_states@ == old(instance).node_states@.update(
            node.0 as int,
            NodeRuntimeState {
                status: BehaviorTreeRunState::Running,
                ..old(instance).node_states@[node.0 as int]
            },
        ),
{
    let i = node.0 as usize;
    instance.node_states[i].status = BehaviorTreeRunState::Running;
    proof {
        lemma_self_frame(def@, node.0 as int, old(instance).node_states@, instance.node_states@);
    }
    BehaviorStatus::Running
}

/// With lifecycle messages on, a node that finished with `r` has its
/// `NodeFinished` message as the last one sent.
pub open spec fn finish_reported(env: TickEnv, node: NodeId, b: RuntimeMessageBuffer, r: BehaviorStatus) -> bool {
    (env.config.emit_lifecycle_messages && r != BehaviorStatus::Running) ==> {
        &&& b.node_finished@.len() > 0
        &&& b.node_finished@.last().node == node
        &&& b.node_finished@.last().entity == env.entity
        &&& b.node_finished@.last().status == r
    }
}

/// Records the node's result and reports it.
fn finish_node(
    instance: &mut BehaviorTreeInstance,
    messages: &mut RuntimeMessageBuffer,
    env: &TickEnv,
    def: &BehaviorTreeDefinition,
    node: NodeId,
    status: BehaviorStatus,
) -> (r: BehaviorStatus)
    requires
        ready(def@, *old(instance)),
        node.0 < def@.nodes.len(),
    ensures
        final(instance).metrics.abort_count == old(instance).metrics.abort_count,
        final(instance).host_calls == old(instance).host_calls,
        finish_reported(*env, node, *final(messages), r),
        messages_kept(*env, *old(messages), *final(messages)),
        final(messages).branch_aborted@ == old(messages).branch_aborted@,
        r == status,
        ready(def@, *final(instance)),
        final(instance).definition == old(instance).definition,
        final(instance).wake_requested == old(instance).wake_requested,
        final(instance).last_running_leaf == old(instance).last_running_leaf,
        outside_unchanged(def@, node.0 as int, old(instance).node_states@, final(instance).node_states@),
        final(instance).node_states@ == old(instance).node_states@.update(
            node.0 as int,
            NodeRuntimeState {
                status: run_state_of(status),
                finished_at: env.now,
                last_result: Some(status),
                async_resolution: None,
                ..old(instance).node_states@[node.0 as int]
            },
        ),
{
    let i = node.0 as usize;
    instance.node_states[i].status = run_state_from(status);
    instance.node_states[i].finished_at = env.now;
    instance.node_states[i].last_result = Some(status);
    instance.node_states[i].async_resolution = None;
    instance.metrics.node_finish_count = instance.metrics.node_finish_count.saturating_add(1);
    if env.config.emit_lifecycle_messages && status != BehaviorStatus::Running {
        messages.node_finished.push(
            NodeFinished { entity: env.entity, node, path: def.nodes[i].path.clone(), status },
        );
    }
    push_trace(instance, env, node, TraceKind::Finished, Some(status), String::new());
    proof {
        lemma_self_frame(def@, node.0 as int, old(instance).node_states@, instance.node_states@);
    }
    status
}

/// Cooldown deadlines and limiter counts are as they were.
pub open spec fn lasting_kept(a: Seq<NodeRuntimeState>, b: Seq<NodeRuntimeState>) -> bool {
    &&& a.len() == b.len()
    &&& forall|j: int|
        0 <= j < a.len() ==> (#[trigger] b[j]).cooldown_until == a[j].cooldown_until && b[j].limiter_used
            == a[j].limiter_used
}

/// Restarts every slot the node reaches: each is fresh again but for its
/// cooldown deadline and limiter count.
fn reset_subtree(instance: &mut BehaviorTreeInstance, def: &BehaviorTreeDefinition, node: NodeId)
    requires
        ready(def@, *old(instance)),
        node.0 < def@.nodes.len(),
    ensures
        ready(def@, *final(instance)),
        *final(instance) == (BehaviorTreeInstance {
            node_states: final(instance).node_states,
            ..*old(instance)
        }),
        outside_unchanged(def@, node.0 as int, old(instance).node_states@, final(instance).node_states@),
        forall|j: int|
            0 <= j < def@.nodes.len() && #[trigger] reachable(graph(def@.nodes), node.0 as int, j)
                ==> final(instance).node_states@[j].is_restarted(),
        lasting_kept(old(instance).node_states@, final(instance).node_states@),
    decreases node_rank(def@, node.0 as int),
{
    let ghost g = graph(def@.nodes);
    proof {
        lemma_ranked(def@);
    }
    let i = node.0 as usize;
    let children = &def.nodes[i].children;
    assert(children@ == g[i as int]);
    let ghost start = instance.node_states@;
    let mut k: usize = 0;
    while k < children.len()
        invariant
            g == graph(def@.nodes),
            children@ == g[i as int],
            i == node.0,
            i < def@.nodes.len(),
            k <= children@.len(),
            ready(def@, *instance),
            ranked_by(g, some_rank(g)),
            *instance == (BehaviorTreeInstance { node_states: instance.node_states, ..*old(instance) }),
            start == old(instance).node_states@,
            outside_unchanged(def@, i as int, start, instance.node_states@),
            forall|m: int, j: int|
                0 <= m < k && 0 <= j < def@.nodes.len() && #[trigger] reachable(g, children@[m].0 as int, j)
                    ==> instance.node_states@[j].is_restarted(),
            lasting_kept(start, instance.node_states@),
        decreases children@.len() - k,
    {
        let child = children[k];
        assert(g[i as int][k as int] == child);
        assert(node_rank(def@, child.0 as int) < node_rank(def@, i as int));
        let ghost before = instance.node_states@;
        reset_subtree(instance, def, child);
        proof {
            lemma_child_frame(def@, i as int, k as int, start, before, instance.node_states@);
            assert forall|m: int, j: int|
                0 <= m < k + 1 && 0 <= j < def@.nodes.len() && #[trigger] reachable(g, children@[m].0 as int, j)
                    implies instance.node_states@[j].is_restarted() by {
                if m < k && !reachable(g, child.0 as int, j) {
                    assert(before[j].is_restarted());
                }
            }
        }
        k = k + 1;
    }
    let ghost before = instance.node_states@;
    let restarted = instance.node_states[i].restarted();
    instance.node_states.set(i, restarted);
    proof {
        assert forall|j: int| 0 <= j < start.len() implies (#[trigger] instance.node_states@[j]).cooldown_until
            == start[j].cooldown_until && instance.node_states@[j].limiter_used == start[j].limiter_used by {
            assert(before[j].cooldown_until == start[j].cooldown_until);
            assert(before[j].limiter_used == start[j].limiter_used);
        }
        lemma_self_frame(def@, i as int, before, instance.node_states@);
        assert(outside_unchanged(def@, i as int, start, instance.node_states@));
        assert forall|j: int|
            0 <= j < def@.nodes.len() && #[trigger] reachable(g, i as int, j) implies instance.node_states@[j].is_restarted() by {
            if j != i {
                lemma_reach_split(g, i as int, j);
                let m = choose|m: int| 0 <= m < g[i as int].len() && #[trigger] reachable(g, i as int, j) && reachable(g, g[i as int][m].0 as int, j);
                assert(children@[m] == g[i as int][m]);
                assert(before[j].is_restarted());
            }
        }
    }
}

/// Only abort messages were sent: the other message lists are as they were.
pub open spec fn only_aborts_sent(a: RuntimeMessageBuffer, b: RuntimeMessageBuffer) -> bool {
    &&& b.tree_completed@ == a.tree_completed@
    &&& b.node_started@ == a.node_started@
    &&& b.node_finished@ == a.node_finished@
    &&& b.blackboard_changed@ == a.blackboard_changed@
}

/// `x` is an action of the branch at `node` whose slot in `states` is
/// running: aborting the branch calls the abort callback of exactly these.
pub open spec fn running_action(def: DefinitionView, node: int, states: Seq<NodeRuntimeState>, x: int) -> bool {
    &&& 0 <= x < def.nodes.len()
    &&& reachable(graph(def.nodes), node, x)
    &&& def.nodes[x].kind is Action
    &&& states[x].status == BehaviorTreeRunState::Running
}

/// `x` is a running action in the branch of one of the first `k` children
/// of `node`.
pub open spec fn running_below(def: DefinitionView, node: int, states: Seq<NodeRuntimeState>, k: int, x: int) -> bool {
    exists|m: int| 0 <= m < k && #[trigger] running_action(def, def.nodes[node].children[m].0 as int, states, x)
}

/// `j` lies in the branch of one of the first `k` children of `node`.
pub open spec fn reached_below(def: DefinitionView, node: int, k: int, j: int) -> bool {
    exists|m: int| 0 <= m < k && #[trigger] reachable(graph(def.nodes), def.nodes[node].children[m].0 as int, j)
}

/// The calls from position `from` on are abort callbacks, only for nodes
/// that `target` holds, each node once.
pub open spec fn aborts_only(calls: Seq<HostCall>, from: int, target: spec_fn(int) -> bool) -> bool {
    &&& 0 <= from <= calls.len()
    &&& forall|j: int| from <= j < calls.len() ==> (#[trigger] calls[j]) is Abort && target(call_node(calls[j]).0 as int)
    &&& forall|j1: int, j2: int|
        from <= j1 < j2 < calls.len() ==> call_node(#[trigger] calls[j1]) != call_node(#[trigger] calls[j2])
}

/// Some call from position `from` on concerns node `x`.
pub open spec fn called_for(calls: Seq<HostCall>, from: int, x: int) -> bool {
    exists|j: int| from <= j < calls.len() && call_node(#[trigger] calls[j]).0 == x
}

/// Cooldown deadlines and limiter counts are as they were for every node
/// that is not an action (whose slot its own abort callback may rewrite).
pub open spec fn lasting_kept_but_actions(def: DefinitionView, a: Seq<NodeRuntimeState>, b: Seq<NodeRuntimeState>) -> bool {
    &&& a.len() == b.len()
    &&& forall|j: int|
        0 <= j < a.len() && !(def.nodes[j].kind is Action) ==> (#[trigger] b[j]).cooldown_until == a[j].cooldown_until
            && b[j].limiter_used == a[j].limiter_used
}

/// How many nodes an abort of the branch at `node` goes through: the node
/// and, for each child in order, its branch (a node shared by several
/// branches is gone through once for each).
pub open spec fn branch_visits(def: DefinitionView, node: int) -> nat
    decreases node_rank(def, node), def.nodes[node].children.len() + 1,
{
    1 + children_visits(def, node, def.nodes[node].children.len() as int)
}

/// How many nodes the abort goes through in the branches of the first `k`
/// children of `node`.
pub open spec fn children_visits(def: DefinitionView, node: int, k: int) -> nat
    decreases node_rank(def, node), k,
{
    if k <= 0 || k > def.nodes[node].children.len() {
        0
    } else {
        let child = def.nodes[node].children[k - 1].0 as int;
        children_visits(def, node, k - 1) + if node_rank(def, child) < node_rank(def, node) {
            branch_visits(def, child)
        } else {
            0
        }
    }
}

/// Counting `a` then `b` more is counting `a + b` more.
proof fn lemma_counted_add(c: u64, a: nat, b: nat)
    ensures
        counted(counted(c, a), b) == counted(c, a + b),
{
}

/// A running action of the branch at `node` is the node itself or one in a
/// child's branch.
proof fn lemma_branch_split(def: DefinitionView, node: int, states: Seq<NodeRuntimeState>, x: int)
    requires
        def.executable(),
        0 <= node < def.nodes.len(),
    ensures
        running_action(def, node, states, x) == (running_below(
            def,
            node,
            states,
            def.nodes[node].children.len() as int,
            x,
        ) || (x == node && def.nodes[node].kind is Action && states[node].status == BehaviorTreeRunState::Running)),
{
    let g = graph(def.nodes);
    let c = def.nodes[node].children;
    assert(g[node] == c);
    crate::definition::lemma_path_single(g, node);
    if running_action(def, node, states, x) && x != node {
        crate::definition::lemma_reach_split(g, node, x);
        let m = choose|m: int| 0 <= m < g[node].len() && #[trigger] reachable(g, node, x) && reachable(g, g[node][m].0 as int, x);
        assert(running_action(def, c[m].0 as int, states, x));
    }
    if running_below(def, node, states, c.len() as int, x) {
        let m = choose|m: int| 0 <= m < c.len() && #[trigger] running_action(def, c[m].0 as int, states, x);
        crate::definition::lemma_outside_child(g, node, m);
    }
}

/// Aborts the branch at `node`: its descendants first, then the node itself
/// (a running action gets its abort callback), recording the abort; at the
/// end every slot of the branch is fresh again.
fn abort_subtree<H: TreeHost>(
    host: &mut H,
    inst: &mut BehaviorTreeInstance,
    bb: &mut BehaviorTreeBlackboard,
    messages: &mut RuntimeMessageBuffer,
    env: &TickEnv,
    def: &BehaviorTreeDefinition,
    node: NodeId,
    reason: String,
    emit_root_message: bool,
)
    requires
        ready(def@, *old(inst)),
        node.0 < def@.nodes.len(),
    ensures
        calls_within(def@, node.0 as int, old(inst).host_calls@, final(inst).host_calls@),
        messages_kept(*env, *old(messages), *final(messages)),
        ready(def@, *final(inst)),
        final(inst).definition == old(inst).definition,
        final(inst).last_abort_reason@ == reason@,
        outside_unchanged(def@, node.0 as int, old(inst).node_states@, final(inst).node_states@),
        forall|j: int|
            0 <= j < def@.nodes.len() && #[trigger] reachable(graph(def@.nodes), node.0 as int, j)
                ==> final(inst).node_states@[j].is_restarted(),
        final(inst).metrics.abort_count >= old(inst).metrics.abort_count,
        old(inst).metrics.abort_count < u64::MAX ==> final(inst).metrics.abort_count > old(
            inst,
        ).metrics.abort_count,
        final(inst).metrics.abort_count == counted(old(inst).metrics.abort_count, branch_visits(def@, node.0 as int)),
        lasting_kept_but_actions(def@, old(inst).node_states@, final(inst).node_states@),
        old(inst).host_calls@.is_prefix_of(final(inst).host_calls@),
        aborts_only(
            final(inst).host_calls@,
            old(inst).host_calls@.len() as int,
            |x: int| running_action(def@, node.0 as int, old(inst).node_states@, x),
        ),
        forall|x: int|
            #[trigger] running_action(def@, node.0 as int, old(inst).node_states@, x) ==> called_for(
                final(inst).host_calls@,
                old(inst).host_calls@.len() as int,
                x,
            ),
        final(messages).branch_aborted@ == (if emit_root_message && env.config.emit_lifecycle_messages {
            old(messages).branch_aborted@.push(
                BranchAborted { entity: env.entity, node, path: def.nodes@[node.0 as int].path, reason },
            )
        } else {
            old(messages).branch_aborted@
        }),
        only_aborts_sent(*old(messages), *final(messages)),
    decreases node_rank(def@, node.0 as int),
{
    let ghost g = graph(def@.nodes);
    proof {
        lemma_ranked(def@);
    }
    let i = node.0 as usize;
    let children = &def.nodes[i].children;
    assert(children@ == g[i as int]);
    let ghost start = inst.node_states@;
    let ghost base = inst.host_calls@.len() as int;
    let mut k: usize = 0;
    while k < children.len()
        invariant
        messages_kept(*env, *old(messages), *messages),
            g == graph(def@.nodes),
            children@ == g[i as int],
            i == node.0,
            i < def@.nodes.len(),
            k <= children@.len(),
            ready(def@, *inst),
            inst.definition == old(inst).definition,
            ranked_by(g, some_rank(g)),
            start == old(inst).node_states@,
            outside_unchanged(def@, i as int, start, inst.node_states@),
            inst.metrics.abort_count >= old(inst).metrics.abort_count,
            inst.metrics.abort_count == counted(old(inst).metrics.abort_count, children_visits(def@, i as int, k as int)),
            lasting_kept_but_actions(def@, start, inst.node_states@),
            messages.branch_aborted@ == old(messages).branch_aborted@,
            only_aborts_sent(*old(messages), *messages),
            base == old(inst).host_calls@.len(),
            old(inst).host_calls@.is_prefix_of(inst.host_calls@),
            aborts_only(inst.host_calls@, base, |x: int| running_below(def@, i as int, start, k as int, x)),
            forall|x: int|
                #[trigger] running_below(def@, i as int, start, k as int, x) ==> called_for(inst.host_calls@, base, x),
            forall|j: int|
                0 <= j < def@.nodes.len() && #[trigger] reached_below(def@, i as int, k as int, j)
                    ==> inst.node_states@[j].is_restarted(),
            forall|j: int|
                0 <= j < def@.nodes.len() && !#[trigger] reached_below(def@, i as int, k as int, j)
                    ==> inst.node_states@[j] == start[j],
        decreases children@.len() - k,
    {
        let child = children[k];
        assert(g[i as int][k as int] == child);
        assert(node_rank(def@, child.0 as int) < node_rank(def@, i as int));
        let ghost before = inst.node_states@;
        let ghost calls_before = inst.host_calls@;
        let ghost count_before = inst.metrics.abort_count;
        abort_subtree(host, inst, bb, messages, env, def, child, reason.clone(), false);
        proof {
            assert(def@.nodes[i as int].children[k as int] == child);
            lemma_counted_add(old(inst).metrics.abort_count, children_visits(def@, i as int, k as int), branch_visits(def@, child.0 as int));
            assert(children_visits(def@, i as int, k + 1) == children_visits(def@, i as int, k as int) + branch_visits(def@, child.0 as int));
            lemma_child_frame(def@, i as int, k as int, start, before, inst.node_states@);
            lemma_prefix_trans(old(inst).host_calls@, calls_before, inst.host_calls@);
            let c = def@.nodes[i as int].children;
            assert(c[k as int] == child);
            let after = inst.node_states@;
            let calls = inst.host_calls@;
            let cb = calls_before.len() as int;
            // A running action of the new child's branch was not reached by
            // an earlier child, so its slot is as it was at the start.
            assert forall|x: int| #[trigger] running_action(def@, child.0 as int, before, x) implies running_action(
                def@,
                child.0 as int,
                start,
                x,
            ) && !reached_below(def@, i as int, k as int, x) by {
                if reached_below(def@, i as int, k as int, x) {
                    assert(before[x].is_restarted());
                }
            }
            assert forall|x: int| #[trigger] running_action(def@, child.0 as int, start, x) && !reached_below(
                def@,
                i as int,
                k as int,
                x,
            ) implies running_action(def@, child.0 as int, before, x) by {
                assert(before[x] == start[x]);
            }
            assert forall|x: int| running_below(def@, i as int, start, k as int, x) implies #[trigger] reached_below(
                def@,
                i as int,
                k as int,
                x,
            ) by {
                let m = choose|m: int| 0 <= m < k && #[trigger] running_action(def@, c[m].0 as int, start, x);
                assert(reachable(g, c[m].0 as int, x));
            }
            assert forall|j: int| base <= j < calls.len() implies (#[trigger] calls[j]) is Abort && running_below(
                def@,
                i as int,
                start,
                k + 1,
                call_node(calls[j]).0 as int,
            ) by {
                let x = call_node(calls[j]).0 as int;
                if j < cb {
                    assert(calls[j] == calls_before[j]);
                    assert(running_below(def@, i as int, start, k as int, x));
                    let m = choose|m: int| 0 <= m < k && #[trigger] running_action(def@, c[m].0 as int, start, x);
                    assert(running_action(def@, c[m].0 as int, start, x));
                } else {
                    assert(running_action(def@, child.0 as int, before, x));
                    assert(running_action(def@, c[k as int].0 as int, start, x));
                }
            }
            assert forall|j1: int, j2: int| base <= j1 < j2 < calls.len() implies call_node(#[trigger] calls[j1])
                != call_node(#[trigger] calls[j2]) by {
                if j2 < cb {
                    assert(calls[j1] == calls_before[j1]);
                    assert(calls[j2] == calls_before[j2]);
                } else if j1 >= cb {
                } else {
                    assert(calls[j1] == calls_before[j1]);
                    let x1 = call_node(calls[j1]).0 as int;
                    let x2 = call_node(calls[j2]).0 as int;
                    assert(running_below(def@, i as int, start, k as int, x1));
                    assert(reached_below(def@, i as int, k as int, x1));
                    assert(running_action(def@, child.0 as int, before, x2));
                    assert(!reached_below(def@, i as int, k as int, x2));
                }
            }
            assert forall|x: int| #[trigger] running_below(def@, i as int, start, k + 1, x) implies called_for(
                calls,
                base,
                x,
            ) by {
                let m = choose|m: int| 0 <= m < k + 1 && #[trigger] running_action(def@, c[m].0 as int, start, x);
                if m < k || reached_below(def@, i as int, k as int, x) {
                    if m == k {
                        let m2 = choose|m2: int| 0 <= m2 < k && #[trigger] reachable(g, c[m2].0 as int, x);
                        assert(running_action(def@, c[m2].0 as int, start, x));
                    }
                    assert(running_below(def@, i as int, start, k as int, x));
                    assert(called_for(calls_before, base, x));
                    let j = choose|j: int| base <= j < calls_before.len() && call_node(#[trigger] calls_before[j]).0 == x;
                    assert(calls[j] == calls_before[j]);
                } else {
                    assert(running_action(def@, child.0 as int, before, x));
                    assert(called_for(calls, cb, x));
                    let j = choose|j: int| cb <= j < calls.len() && call_node(#[trigger] calls[j]).0 == x;
                }
            }
            assert forall|j: int|
                0 <= j < def@.nodes.len() && #[trigger] reached_below(def@, i as int, k + 1, j) implies after[j].is_restarted() by {
                let m = choose|m: int| 0 <= m < k + 1 && #[trigger] reachable(g, c[m].0 as int, j);
                if !reachable(g, child.0 as int, j) {
                    assert(after[j] == before[j]);
                    assert(reached_below(def@, i as int, k as int, j));
                }
            }
            assert forall|j: int|
                0 <= j < def@.nodes.len() && !#[trigger] reached_below(def@, i as int, k + 1, j) implies after[j] == start[j] by {
                if reachable(g, child.0 as int, j) {
                    assert(reached_below(def@, i as int, k + 1, j));
                }
                if reached_below(def@, i as int, k as int, j) {
                    let m = choose|m: int| 0 <= m < k && #[trigger] reachable(g, c[m].0 as int, j);
                    assert(reached_below(def@, i as int, k + 1, j));
                }
                assert(after[j] == before[j]);
            }
        }
        k = k + 1;
    }
    let ghost calls_loop = inst.host_calls@;
    proof {
        if reached_below(def@, i as int, children@.len() as int, i as int) {
            let m = choose|m: int| 0 <= m < children@.len() && #[trigger] reachable(g, def@.nodes[i as int].children[m].0 as int, i as int);
            lemma_child_misses_parent(def@, i as int, m);
        }
        assert(inst.node_states@[i as int] == start[i as int]);
        assert(def@.nodes[i as int] == def.nodes@[i as int]@);
    }
    if let NodeKind::Action(key) = &def.nodes[i].kind {
        if matches!(inst.node_states[i].status, BehaviorTreeRunState::Running) {
            let ghost before = inst.node_states@;
            host.abort_action(
                def,
                node,
                key,
                bb,
                &mut inst.node_states[i],
                &mut inst.action_ticket_counter,
                &mut inst.wake_requested,
                &mut inst.wake_reason,
            );
            inst.host_calls = Ghost(inst.host_calls@.push(HostCall::Abort { node }));
            proof {
                lemma_self_frame(def@, i as int, before, inst.node_states@);
                lemma_frame_trans(def@, i as int, start, before, inst.node_states@);
            }
        }
    }
    inst.metrics.abort_count = inst.metrics.abort_count.saturating_add(1);
    inst.last_abort_reason = reason.clone();
    push_trace(inst, env, node, TraceKind::Aborted, None, reason.clone());
    if emit_root_message && env.config.emit_lifecycle_messages {
        messages.branch_aborted.push(
            BranchAborted { entity: env.entity, node, path: def.nodes[i].path.clone(), reason },
        );
    }
    let ghost before = inst.node_states@;
    reset_subtree(inst, def, node);
    proof {
        lemma_frame_trans(def@, i as int, start, before, inst.node_states@);
        let c = def@.nodes[i as int].children;
        let calls = inst.host_calls@;
        let cl = calls_loop.len() as int;
        assert(children@.len() == c.len());
        assert forall|x: int| #[trigger] running_action(def@, i as int, start, x) == (running_below(
            def@,
            i as int,
            start,
            c.len() as int,
            x,
        ) || (x == i && def@.nodes[i as int].kind is Action && start[i as int].status
            == BehaviorTreeRunState::Running)) by {
            lemma_branch_split(def@, i as int, start, x);
        }
        assert forall|j: int| base <= j < calls.len() implies (#[trigger] calls[j]) is Abort && running_action(
            def@,
            i as int,
            start,
            call_node(calls[j]).0 as int,
        ) by {
            if j < cl {
                assert(calls[j] == calls_loop[j]);
            }
        }
        assert forall|j1: int, j2: int| base <= j1 < j2 < calls.len() implies call_node(#[trigger] calls[j1])
            != call_node(#[trigger] calls[j2]) by {
            if j2 < cl {
                assert(calls[j1] == calls_loop[j1]);
                assert(calls[j2] == calls_loop[j2]);
            } else {
                assert(calls[j1] == calls_loop[j1]);
                let x1 = call_node(calls[j1]).0 as int;
                assert(running_below(def@, i as int, start, c.len() as int, x1));
                let m = choose|m: int| 0 <= m < c.len() && #[trigger] running_action(def@, c[m].0 as int, start, x1);
                lemma_child_misses_parent(def@, i as int, m);
            }
        }
        assert forall|x: int| #[trigger] running_action(def@, i as int, start, x) implies called_for(calls, base, x) by {
            if running_below(def@, i as int, start, c.len() as int, x) {
                assert(called_for(calls_loop, base, x));
                let j = choose|j: int| base <= j < calls_loop.len() && call_node(#[trigger] calls_loop[j]).0 == x;
                assert(calls[j] == calls_loop[j]);
            } else {
                assert(calls[cl] == HostCall::Abort { node });
            }
        }
    }
}

/// The reason a service gives when its change wakes the tree.
pub open spec fn service_wake_text(name: Seq<char>) -> Seq<char> {
    "service '"@ + name + "'"@
}

fn service_wake_reason(name: &str) -> (r: String)
    ensures
        r@ == service_wake_text(name@),
{
    joined3("service '", name, "'")
}

/// When each of a node's services first falls due: at once for one that
/// starts immediately, one period on otherwise.
pub open spec fn first_due_times(services: Seq<ServiceBinding>, now: i64) -> Seq<i64> {
    Seq::new(
        services.len(),
        |k: int|
            if services[k].start_immediately {
                now
            } else {
                clamp_time(now + period_of(services[k].interval_micros))
            },
    )
}

/// The due list a pass over a node's services starts from: the slot's own
/// when the node has no services or the list matches the bindings, a fresh
/// schedule otherwise.
pub open spec fn due_list_at_start(due: Seq<i64>, services: Seq<ServiceBinding>, now: i64) -> Seq<i64> {
    if services.len() == 0 || due.len() == services.len() {
        due
    } else {
        first_due_times(services, now)
    }
}

/// `b` is the slot `a` with its due list replaced by `due`.
pub open spec fn slot_with_due(a: NodeRuntimeState, b: NodeRuntimeState, due: Seq<i64>) -> bool {
    &&& b.service_due_at@ == due
    &&& b.status == a.status
    &&& b.cursor == a.cursor
    &&& b.entered_at == a.entered_at
    &&& b.finished_at == a.finished_at
    &&& b.cooldown_until == a.cooldown_until
    &&& b.delay_until == a.delay_until
    &&& b.counter == a.counter
    &&& b.limiter_used == a.limiter_used
    &&& b.node_memory@ == a.node_memory@
    &&& b.async_ticket == a.async_ticket
    &&& b.async_resolution == a.async_resolution
    &&& b.last_result == a.last_result
    &&& b.execution_count == a.execution_count
}

/// A counter after `n` saturating increments.
pub open spec fn counted(count: u64, n: nat) -> u64 {
    if count + n > u64::MAX {
        u64::MAX
    } else {
        (count + n) as u64
    }
}

/// The trace after one service entry for each service in `runs`, in order.
pub open spec fn trace_after_services(
    entries: Seq<BehaviorTreeTraceEntry>,
    capacity: usize,
    frame: u64,
    node: NodeId,
    services: Seq<ServiceBinding>,
    runs: Seq<int>,
) -> Seq<BehaviorTreeTraceEntry>
    decreases runs.len(),
{
    if runs.len() == 0 {
        entries
    } else {
        crate::debug::trace_after_push(
            trace_after_services(entries, capacity, frame, node, services, runs.drop_last()),
            capacity,
            BehaviorTreeTraceEntry {
                frame,
                node,
                kind: TraceKind::Service,
                status: None,
                note: services[runs.last()].name,
            },
        )
    }
}

/// A pass over the services of node `node` took the instance from `a` to `b`
/// (and the blackboard from `bba` to `bbb`), running the services `runs`, in
/// increasing order. Each run is counted and traced. Until the first run
/// nothing but the due list is touched, and the first run is the first
/// service due on the list the pass starts from. The last service run is
/// rescheduled one period on, and none after it was due when it came up.
pub open spec fn services_ran(
    runs: Seq<int>,
    services: Seq<ServiceBinding>,
    env: TickEnv,
    node: NodeId,
    a: BehaviorTreeInstance,
    b: BehaviorTreeInstance,
    bba: BehaviorTreeBlackboard,
    bbb: BehaviorTreeBlackboard,
) -> bool {
    let i = node.0 as int;
    let start = due_list_at_start(a.node_states@[i].service_due_at@, services, env.now);
    let due = b.node_states@[i].service_due_at@;
    &&& forall|j: int| 0 <= j < runs.len() ==> 0 <= #[trigger] runs[j] < services.len()
    &&& forall|j1: int, j2: int| 0 <= j1 < j2 < runs.len() ==> #[trigger] runs[j1] < #[trigger] runs[j2]
    &&& b.metrics.service_run_count == counted(a.metrics.service_run_count, runs.len())
    &&& services_called(runs, services, node, a, b)
    &&& b.trace.entries@ == trace_after_services(
        a.trace.entries@,
        a.trace.capacity,
        env.frame,
        node,
        services,
        runs,
    )
    &&& runs.len() == 0 ==> {
        &&& forall|k: int| 0 <= k < services.len() ==> env.now < #[trigger] start[k]
        &&& slot_with_due(a.node_states@[i], b.node_states@[i], start)
        &&& b.wake_requested == a.wake_requested
        &&& b.wake_reason == a.wake_reason
        &&& bbb == bba
    }
    &&& runs.len() > 0 ==> {
        &&& env.now >= start[runs[0]]
        &&& forall|k: int| 0 <= k < runs[0] ==> env.now < #[trigger] start[k]
        &&& runs.last() < due.len() ==> due[runs.last()] == clamp_time(
            env.now + period_of(services[runs.last()].interval_micros),
        )
        &&& forall|k: int|
            runs.last() < k < services.len() && k < due.len() ==> env.now < #[trigger] due[k]
    }
}

/// `c` is the callback of service `k` of `node`.
pub open spec fn is_service_call(c: HostCall, node: NodeId, k: int) -> bool {
    match c {
        HostCall::Service { node: n, index, .. } => n == node && index == k,
        _ => false,
    }
}

/// `c` is a service callback during which the blackboard's revision moved.
pub open spec fn changed_during(c: HostCall) -> bool {
    match c {
        HostCall::Service { changed, .. } => changed,
        _ => false,
    }
}

/// The `j`-th call added from `a` to `b`.
pub open spec fn added_call(a: BehaviorTreeInstance, b: BehaviorTreeInstance, j: int) -> HostCall {
    b.host_calls@[a.host_calls@.len() + j]
}

/// The calls from `a` to `b` are one service callback for each service in
/// `runs`, in order. When the last one ran, wakes on change and the
/// blackboard's revision moved while it ran, the tree is woken, with the
/// service's name as the reason.
pub open spec fn services_called(
    runs: Seq<int>,
    services: Seq<ServiceBinding>,
    node: NodeId,
    a: BehaviorTreeInstance,
    b: BehaviorTreeInstance,
) -> bool {
    &&& a.host_calls@.is_prefix_of(b.host_calls@)
    &&& b.host_calls@.len() == a.host_calls@.len() + runs.len()
    &&& forall|j: int| 0 <= j < runs.len() ==> is_service_call(#[trigger] added_call(a, b, j), node, runs[j])
    &&& runs.len() > 0 ==> {
        (services[runs.last()].wake_on_change && changed_during(b.host_calls@.last())) ==> {
            &&& b.wake_requested
            &&& b.wake_reason@ == service_wake_text(services[runs.last()].name@)
        }
    }
}

/// The instance fields that a pass over services leaves alone.
pub open spec fn services_frame(a: BehaviorTreeInstance, b: BehaviorTreeInstance) -> bool {
    &&& b.definition == a.definition
    &&& b.status == a.status
    &&& b.active_path@ == a.active_path@
    &&& b.last_running_leaf == a.last_running_leaf
    &&& b.last_abort_reason == a.last_abort_reason
    &&& b.next_tick_at == a.next_tick_at
    &&& b.observed_blackboard_revision == a.observed_blackboard_revision
    &&& b.action_ticket_counter == a.action_ticket_counter
    &&& b.trace.capacity == a.trace.capacity
    &&& b.metrics.tick_count == a.metrics.tick_count
    &&& b.metrics.node_start_count == a.metrics.node_start_count
    &&& b.metrics.node_finish_count == a.metrics.node_finish_count
    &&& b.metrics.abort_count == a.metrics.abort_count
    &&& b.metrics.last_tick_micros == a.metrics.last_tick_micros
    &&& b.metrics.node_execution_counts@ == a.metrics.node_execution_counts@
}

/// Runs the node's due services. The first time (or whenever the slot's
/// due list does not match the bindings) each service is scheduled: now
/// when it starts immediately, one period later otherwise. A due service is
/// run, counted, traced and rescheduled one period later; when it changed
/// the blackboard and wakes on change, the tree is woken. A service whose
/// due entry a handler removed is skipped.
fn run_services<H: TreeHost>(
    host: &mut H,
    inst: &mut BehaviorTreeInstance,
    bb: &mut BehaviorTreeBlackboard,
    env: &TickEnv,
    def: &BehaviorTreeDefinition,
    node: NodeId,
)
    requires
        ready(def@, *old(inst)),
        node.0 < def@.nodes.len(),
    ensures
        calls_within(def@, node.0 as int, old(inst).host_calls@, final(inst).host_calls@),
        ready(def@, *final(inst)),
        final(inst).definition == old(inst).definition,
        outside_unchanged(def@, node.0 as int, old(inst).node_states@, final(inst).node_states@),
        services_frame(*old(inst), *final(inst)),
        def.nodes@[node.0 as int].services@.len() == 0 ==> *final(inst) == *old(inst) && *final(bb)
            == *old(bb),
        exists|runs: Seq<int>|
            #[trigger] services_ran(
                runs,
                def.nodes@[node.0 as int].services@,
                *env,
                node,
                *old(inst),
                *final(inst),
                *old(bb),
                *final(bb),
            ),
{
    let i = node.0 as usize;
    let services = &def.nodes[i].services;
    let ghost start = due_list_at_start(inst.node_states@[i as int].service_due_at@, services@, env.now);
    let ghost slot0 = inst.node_states@[i as int];
    if services.len() == 0 {
        proof {
            lemma_self_frame(def@, i as int, inst.node_states@, inst.node_states@);
            lemma_calls_none(def@, i as int, inst.host_calls@);
            assert(services_ran(Seq::<int>::empty(), services@, *env, node, *old(inst), *inst, *old(bb), *bb));
        }
        return;
    }
    if inst.node_states[i].service_due_at.len() != services.len() {
        let mut due: Vec<i64> = Vec::new();
        let mut k: usize = 0;
        while k < services.len()
            invariant
                k <= services@.len(),
                due@ =~= first_due_times(services@, env.now).take(k as int),
            decreases services@.len() - k,
        {
            if services[k].start_immediately {
                due.push(env.now);
            } else {
                due.push(time_after(env.now, effective_period(services[k].interval_micros)));
            }
            k = k + 1;
        }
        inst.node_states[i].service_due_at = due;
    }
    assert(inst.node_states@[i as int].service_due_at@ =~= start);
    let ghost mut runs: Seq<int> = Seq::empty();
    let mut k: usize = 0;
    while k < services.len()
        invariant
            k <= services@.len(),
            services@ == def.nodes@[i as int].services@,
            services@.len() > 0,
            i == node.0,
            i < def@.nodes.len(),
            ready(def@, *inst),
            inst.definition == old(inst).definition,
            inst.node_states@.len() == old(inst).node_states@.len(),
            forall|j: int|
                0 <= j < old(inst).node_states@.len() && j != i ==> #[trigger] inst.node_states@[j]
                    == old(inst).node_states@[j],
            services_frame(*old(inst), *inst),
            slot0 == old(inst).node_states@[i as int],
            start == due_list_at_start(slot0.service_due_at@, services@, env.now),
            start.len() == services@.len(),
            forall|j: int| 0 <= j < runs.len() ==> 0 <= #[trigger] runs[j] < k,
            forall|j1: int, j2: int| 0 <= j1 < j2 < runs.len() ==> #[trigger] runs[j1] < #[trigger] runs[j2],
            inst.metrics.service_run_count == counted(old(inst).metrics.service_run_count, runs.len()),
            services_called(runs, services@, node, *old(inst), *inst),
            inst.trace.entries@ == trace_after_services(
                old(inst).trace.entries@,
                old(inst).trace.capacity,
                env.frame,
                node,
                services@,
                runs,
            ),
            runs.len() == 0 ==> {
                &&& forall|k2: int| 0 <= k2 < k ==> env.now < #[trigger] start[k2]
                &&& slot_with_due(slot0, inst.node_states@[i as int], start)
                &&& inst.wake_requested == old(inst).wake_requested
                &&& inst.wake_reason == old(inst).wake_reason
                &&& *bb == *old(bb)
            },
            runs.len() > 0 ==> {
                &&& env.now >= start[runs[0]]
                &&& forall|k2: int| 0 <= k2 < runs[0] ==> env.now < #[trigger] start[k2]
                &&& runs.last() < inst.node_states@[i as int].service_due_at@.len()
                    ==> inst.node_states@[i as int].service_due_at@[runs.last()] == clamp_time(
                    env.now + period_of(services@[runs.last()].interval_micros),
                )
                &&& forall|k2: int|
                    runs.last() < k2 < k && k2 < inst.node_states@[i as int].service_due_at@.len()
                        ==> env.now < #[trigger] inst.node_states@[i as int].service_due_at@[k2]
            },
        decreases services@.len() - k,
    {
        let service = &services[k];
        if k < inst.node_states[i].service_due_at.len() && env.now
            >= inst.node_states[i].service_due_at[k] {
            let previous_revision = bb.total_revision;
            let ghost calls_mid = inst.host_calls@;
            let ghost top = *inst;
            host.run_service(
                def,
                node,
                &service.key,
                bb,
                &mut inst.node_states[i],
                &mut inst.wake_requested,
                &mut inst.wake_reason,
            );
            let changed = bb.total_revision != previous_revision;
            inst.host_calls = Ghost(
                inst.host_calls@.push(HostCall::Service { node, index: k, changed }),
            );
            if service.wake_on_change && changed {
                inst.wake_requested = true;
                inst.wake_reason = service_wake_reason(service.name.as_str());
            }
            inst.metrics.service_run_count = inst.metrics.service_run_count.saturating_add(1);
            push_trace(inst, env, node, TraceKind::Service, None, service.name.clone());
            if k < inst.node_states[i].service_due_at.len() {
                let next = time_after(env.now, effective_period(service.interval_micros));
                inst.node_states[i].service_due_at.set(k, next);
            }
            proof {
                let old_runs = runs;
                runs = runs.push(k as int);
                assert(runs.drop_last() =~= old_runs);
                assert forall|j: int| 0 <= j < runs.len() implies is_service_call(
                    #[trigger] added_call(*old(inst), *inst, j),
                    node,
                    runs[j],
                ) by {
                    if j < old_runs.len() {
                        assert(added_call(*old(inst), *inst, j) == calls_mid[old(inst).host_calls@.len() + j]);
                        assert(is_service_call(added_call(*old(inst), top, j), node, old_runs[j]));
                    } else {
                        assert(added_call(*old(inst), *inst, j) == inst.host_calls@.last());
                    }
                }
                lemma_prefix_trans(old(inst).host_calls@, calls_mid, inst.host_calls@);
            }
        }
        k = k + 1;
    }
    proof {
        lemma_self_frame(def@, i as int, old(inst).node_states@, inst.node_states@);
        crate::definition::lemma_path_single(graph(def@.nodes), i as int);
        let calls = inst.host_calls@;
        let base = old(inst).host_calls@.len() as int;
        assert forall|j: int| base <= j < calls.len() implies reachable(
            graph(def@.nodes),
            i as int,
            call_node(#[trigger] calls[j]).0 as int,
        ) by {
            assert(is_service_call(added_call(*old(inst), *inst, j - base), node, runs[j - base]));
        }
        assert(services_ran(runs, services@, *env, node, *old(inst), *inst, *old(bb), *bb));
    }
}

/// A run-once decorator that reports `Running` once it has completed: it
/// answers from its slot without joining the active path.
pub open spec fn parked_running(def: DefinitionView, node: int) -> bool {
    def.nodes[node].kind == NodeKindView::Decorator(
        DecoratorKindView::RunOnce { completed_status: BehaviorStatus::Running },
    )
}

/// The active path may only grow, and a running node ends it (but for a
/// parked run-once decorator).
pub open spec fn path_extends(
    def: DefinitionView,
    pa: Seq<NodeId>,
    pb: Seq<NodeId>,
    node: int,
    r: BehaviorStatus,
) -> bool {
    &&& pa.is_prefix_of(pb)
    &&& (r == BehaviorStatus::Running && !parked_running(def, node)) ==> pb.len() > pa.len()
        && pb.last().0 == node
}

proof fn lemma_prefix_trans<A>(a: Seq<A>, b: Seq<A>, c: Seq<A>)
    requires
        a.is_prefix_of(b),
        b.is_prefix_of(c),
    ensures
        a.is_prefix_of(c),
{
    assert forall|k: int| 0 <= k < a.len() implies a[k] == c.subrange(0, a.len() as int)[k] by {
        assert(a[k] == b.subrange(0, a.len() as int)[k]);
        assert(b[k] == c.subrange(0, b.len() as int)[k]);
    }
    assert(a =~= c.subrange(0, a.len() as int));
}

/// Whether an action in a slot of this state starts anew (rather than
/// being ticked on).
pub open spec fn restarts(s: BehaviorTreeRunState) -> bool {
    s == BehaviorTreeRunState::Success || s == BehaviorTreeRunState::Failure || s == BehaviorTreeRunState::Idle
}

/// Ticks an action leaf; `registered` says whether a handler is registered
/// under its key. Without one it fails. Otherwise a
/// leaf that is not already running is reset and entered and gets its start
/// callback; a running one gets its tick callback. A running result makes it
/// the last running leaf.
fn tick_action<H: TreeHost>(
    host: &mut H,
    inst: &mut BehaviorTreeInstance,
    bb: &mut BehaviorTreeBlackboard,
    messages: &mut RuntimeMessageBuffer,
    path: &mut Vec<NodeId>,
    env: &TickEnv,
    def: &BehaviorTreeDefinition,
    node: NodeId,
    key: &ActionKey,
    registered: bool,
) -> (r: BehaviorStatus)
    requires
        ready(def@, *old(inst)),
        node.0 < def@.nodes.len(),
    ensures
        quiet(def@, node.0 as int) ==> nothing_aborted(*old(inst), *final(inst), *old(messages), *final(messages)),
        calls_within(def@, node.0 as int, old(inst).host_calls@, final(inst).host_calls@),
        finish_reported(*env, node, *final(messages), r),
        !registered ==> r == BehaviorStatus::Failure && final(path)@ == old(path)@,
        messages_kept(*env, *old(messages), *final(messages)),
        ready(def@, *final(inst)),
        final(inst).definition == old(inst).definition,
        outside_unchanged(def@, node.0 as int, old(inst).node_states@, final(inst).node_states@),
        final(inst).node_states@[node.0 as int].status == run_state_of(r),
        path_extends(def@, old(path)@, final(path)@, node.0 as int, r),
        r == BehaviorStatus::Running ==> final(inst).last_running_leaf == Some(node),
        final(inst).host_calls@ == (if registered {
            old(inst).host_calls@.push(
                HostCall::Action { node, starting: restarts(old(inst).node_states@[node.0 as int].status), result: r },
            )
        } else {
            old(inst).host_calls@
        }),
{
    proof {
        crate::definition::lemma_path_single(graph(def@.nodes), node.0 as int);
    }
    let ghost start = inst.node_states@;
    proof {
        lemma_calls_none(def@, node.0 as int, inst.host_calls@);
        crate::definition::lemma_path_single(graph(def@.nodes), node.0 as int);
    }
    if !registered {
        return finish_node(inst, messages, env, def, node, BehaviorStatus::Failure);
    }
    let i = node.0 as usize;
    let restart = match inst.node_states[i].status {
        BehaviorTreeRunState::Success | BehaviorTreeRunState::Failure
        | BehaviorTreeRunState::Idle => true,
        _ => false,
    };
    if restart {
        reset_subtree(inst, def, node);
        let ghost mid = inst.node_states@;
        start_node(inst, messages, env, def, node);
        proof {
            lemma_frame_trans(def@, i as int, start, mid, inst.node_states@);
        }
    }
    let ghost before = inst.node_states@;
    let status = host.run_action(
        def,
        node,
        key,
        restart,
        bb,
        &mut inst.node_states[i],
        &mut inst.action_ticket_counter,
        &mut inst.wake_requested,
        &mut inst.wake_reason,
    );
    let ghost calls_before = inst.host_calls@;
    inst.host_calls = Ghost(inst.host_calls@.push(HostCall::Action { node, starting: restart, result: status }));
    proof {
        assert(calls_before.is_prefix_of(inst.host_calls@)) by {
            assert(calls_before =~= inst.host_calls@.subrange(0, calls_before.len() as int));
        }
    }
    proof {
        lemma_self_frame(def@, i as int, before, inst.node_states@);
        lemma_frame_trans(def@, i as int, start, before, inst.node_states@);
    }
    let ghost mid = inst.node_states@;
    match status {
        BehaviorStatus::Running => {
            inst.last_running_leaf = Some(node);
            path.push(node);
            let r = set_running(inst, def, node);
            proof {
                lemma_frame_trans(def@, i as int, start, mid, inst.node_states@);
            }
            r
        },
        _ => {
            let r = finish_node(inst, messages, env, def, node, status);
            proof {
                lemma_frame_trans(def@, i as int, start, mid, inst.node_states@);
            }
            r
        },
    }
}

/// Ticks a condition leaf whose condition came out as `holds`: it is
/// entered and finished at once, succeeding exactly when the condition
/// holds, so it never reports `Running`.
fn tick_condition(
    inst: &mut BehaviorTreeInstance,
    messages: &mut RuntimeMessageBuffer,
    env: &TickEnv,
    def: &BehaviorTreeDefinition,
    node: NodeId,
    holds: bool,
) -> (r: BehaviorStatus)
    requires
        ready(def@, *old(inst)),
        node.0 < def@.nodes.len(),
    ensures
        quiet(def@, node.0 as int) ==> nothing_aborted(*old(inst), *final(inst), *old(messages), *final(messages)),
        calls_within(def@, node.0 as int, old(inst).host_calls@, final(inst).host_calls@),
        finish_reported(*env, node, *final(messages), r),
        messages_kept(*env, *old(messages), *final(messages)),
        ready(def@, *final(inst)),
        final(inst).definition == old(inst).definition,
        outside_unchanged(def@, node.0 as int, old(inst).node_states@, final(inst).node_states@),
        final(inst).node_states@[node.0 as int].status == run_state_of(r),
        r == (if holds {
            BehaviorStatus::Success
        } else {
            BehaviorStatus::Failure
        }),
{
    proof {
        crate::definition::lemma_path_single(graph(def@.nodes), node.0 as int);
    }
    let ghost start = inst.node_states@;
    start_node(inst, messages, env, def, node);
    let ghost mid = inst.node_states@;
    let r = finish_node(
        inst,
        messages,
        env,
        def,
        node,
        if holds {
            BehaviorStatus::Success
        } else {
            BehaviorStatus::Failure
        },
    );
    proof {
        lemma_frame_trans(def@, node.0 as int, start, mid, inst.node_states@);
    }
    r
}

/// What every tick of a node guarantees: the instance still fits the
/// definition, only the node's branch changed, the node's slot records the
/// result, and the active path grew, ending at the node when it runs.
pub open spec fn ticked(
    def: DefinitionView,
    node: int,
    a: BehaviorTreeInstance,
    b: BehaviorTreeInstance,
    pa: Seq<NodeId>,
    pb: Seq<NodeId>,
    r: BehaviorStatus,
) -> bool {
    &&& ready(def, b)
    &&& b.definition == a.definition
    &&& outside_unchanged(def, node, a.node_states@, b.node_states@)
    &&& b.node_states@[node].status == run_state_of(r)
    &&& path_extends(def, pa, pb, node, r)
}

/// The result a run state stands for; a slot that is not finished counts as
/// running.
pub open spec fn outcome_of(s: BehaviorTreeRunState) -> BehaviorStatus {
    match s {
        BehaviorTreeRunState::Success => BehaviorStatus::Success,
        BehaviorTreeRunState::Failure => BehaviorStatus::Failure,
        _ => BehaviorStatus::Running,
    }
}

/// The only child of a decorator.
pub open spec fn only_child(def: DefinitionView, node: int) -> int {
    def.nodes[node].children[0].0 as int
}

/// Enters the node unless it is already running.
fn enter(
    inst: &mut BehaviorTreeInstance,
    messages: &mut RuntimeMessageBuffer,
    env: &TickEnv,
    def: &BehaviorTreeDefinition,
    node: NodeId,
)
    requires
        ready(def@, *old(inst)),
        node.0 < def@.nodes.len(),
    ensures
        final(inst).metrics.abort_count == old(inst).metrics.abort_count,
        final(messages).branch_aborted@ == old(messages).branch_aborted@,
        final(inst).host_calls == old(inst).host_calls,
        messages_kept(*env, *old(messages), *final(messages)),
        ready(def@, *final(inst)),
        final(inst).definition == old(inst).definition,
        final(inst).last_running_leaf == old(inst).last_running_leaf,
        final(inst).node_states@.len() == old(inst).node_states@.len(),
        forall|j: int|
            0 <= j < old(inst).node_states@.len() && j != node.0 ==> #[trigger] final(inst).node_states@[j]
                == old(inst).node_states@[j],
        ({
            let a = old(inst).node_states@[node.0 as int];
            let b = final(inst).node_states@[node.0 as int];
            &&& b.status == BehaviorTreeRunState::Running
            &&& b.entered_at == (if a.status == BehaviorTreeRunState::Running {
                a.entered_at
            } else {
                env.now
            })
            &&& b.cursor == a.cursor
            &&& b.counter == a.counter
            &&& b.limiter_used == a.limiter_used
            &&& b.cooldown_until == a.cooldown_until
            &&& b.delay_until == a.delay_until
        }),
{
    if !matches!(inst.node_states[node.0 as usize].status, BehaviorTreeRunState::Running) {
        start_node(inst, messages, env, def, node);
    }
}

/// Reports `status` for the node: a running node joins the active path and
/// stays running, a finished one is finished.
fn settle(
    inst: &mut BehaviorTreeInstance,
    messages: &mut RuntimeMessageBuffer,
    path: &mut Vec<NodeId>,
    env: &TickEnv,
    def: &BehaviorTreeDefinition,
    node: NodeId,
    status: BehaviorStatus,
) -> (r: BehaviorStatus)
    requires
        ready(def@, *old(inst)),
        node.0 < def@.nodes.len(),
    ensures
        final(inst).metrics.abort_count == old(inst).metrics.abort_count,
        final(inst).host_calls == old(inst).host_calls,
        finish_reported(*env, node, *final(messages), r),
        messages_kept(*env, *old(messages), *final(messages)),
        final(messages).branch_aborted@ == old(messages).branch_aborted@,
        r == status,
        ready(def@, *final(inst)),
        final(inst).definition == old(inst).definition,
        final(inst).node_states@.len() == old(inst).node_states@.len(),
        forall|j: int|
            0 <= j < old(inst).node_states@.len() && j != node.0 ==> #[trigger] final(inst).node_states@[j]
                == old(inst).node_states@[j],
        final(inst).node_states@[node.0 as int].status == run_state_of(r),
        final(inst).node_states@[node.0 as int].entered_at == old(inst).node_states@[node.0 as int].entered_at,
        final(inst).node_states@[node.0 as int].cursor == old(inst).node_states@[node.0 as int].cursor,
        final(inst).node_states@[node.0 as int].counter == old(inst).node_states@[node.0 as int].counter,
        final(inst).node_states@[node.0 as int].limiter_used == old(inst).node_states@[node.0 as int].limiter_used,
        final(inst).node_states@[node.0 as int].cooldown_until == old(inst).node_states@[node.0 as int].cooldown_until,
        final(inst).node_states@[node.0 as int].delay_until == old(inst).node_states@[node.0 as int].delay_until,
        r == BehaviorStatus::Running ==> final(path)@ == old(path)@.push(node),
        r != BehaviorStatus::Running ==> final(path)@ == old(path)@,
{
    if status == BehaviorStatus::Running {
        path.push(node);
        set_running(inst, def, node)
    } else {
        finish_node(inst, messages, env, def, node, status)
    }
}

/// Whether `count` outcomes out of `child_count` meet the threshold.
pub fn threshold_met(threshold: ParallelThreshold, count: usize, child_count: usize) -> (r: bool)
    ensures
        r == threshold_reached(threshold, count as int, child_count as int),
{
    match threshold {
        ParallelThreshold::Any => count > 0,
        ParallelThreshold::All => count == child_count,
        ParallelThreshold::AtLeast(required) => count >= required as usize,
    }
}

/// `counter + 1` reaches an optional limit.
pub open spec fn limit_reached(limit: Option<u32>, counter: u32) -> bool {
    match limit {
        Some(l) => counter + 1 >= l,
        None => false,
    }
}

/// What a repeating decorator does with a finished child result: `Some` of
/// its own result, or `None` to run the child again.
pub open spec fn repeat_outcome(d: DecoratorKindView, counter: u32, child: BehaviorStatus) -> Option<BehaviorStatus> {
    match d {
        DecoratorKindView::Retry { attempts } => if child == BehaviorStatus::Success {
            Some(BehaviorStatus::Success)
        } else if counter < attempts {
            None
        } else {
            Some(BehaviorStatus::Failure)
        },
        DecoratorKindView::Repeater { limit } => if limit_reached(limit, counter) {
            Some(BehaviorStatus::Success)
        } else {
            None
        },
        DecoratorKindView::UntilSuccess { limit } => if child == BehaviorStatus::Success {
            Some(BehaviorStatus::Success)
        } else if limit_reached(limit, counter) {
            Some(BehaviorStatus::Failure)
        } else {
            None
        },
        DecoratorKindView::UntilFailure { limit } => if child == BehaviorStatus::Failure {
            Some(BehaviorStatus::Success)
        } else if limit_reached(limit, counter) {
            Some(BehaviorStatus::Failure)
        } else {
            None
        },
        _ => Some(child),
    }
}

fn limit_hit(limit: Option<u32>, counter: u32) -> (r: bool)
    ensures
        r == limit_reached(limit, counter),
{
    match limit {
        Some(l) => counter as u64 + 1 >= l as u64,
        None => false,
    }
}

/// The repeating decorators' rule for a finished child result.
pub fn repeat_decision(d: &DecoratorKind, counter: u32, child: BehaviorStatus) -> (r: Option<BehaviorStatus>)
    requires
        child != BehaviorStatus::Running,
    ensures
        r == repeat_outcome(d@, counter, child),
{
    match d {
        DecoratorKind::Retry { attempts } => if child == BehaviorStatus::Success {
            Some(BehaviorStatus::Success)
        } else if counter < *attempts {
            None
        } else {
            Some(BehaviorStatus::Failure)
        },
        DecoratorKind::Repeater { limit } => if limit_hit(*limit, counter) {
            Some(BehaviorStatus::Success)
        } else {
            None
        },
        DecoratorKind::UntilSuccess { limit } => if child == BehaviorStatus::Success {
            Some(BehaviorStatus::Success)
        } else if limit_hit(*limit, counter) {
            Some(BehaviorStatus::Failure)
        } else {
            None
        },
        DecoratorKind::UntilFailure { limit } => if child == BehaviorStatus::Failure {
            Some(BehaviorStatus::Success)
        } else if limit_hit(*limit, counter) {
            Some(BehaviorStatus::Failure)
        } else {
            None
        },
        _ => Some(child),
    }
}

/// What a result-mapping decorator reports for its child's result.
pub open spec fn mapped_status(d: DecoratorKindView, child: BehaviorStatus) -> BehaviorStatus {
    if child == BehaviorStatus::Running {
        BehaviorStatus::Running
    } else {
        match d {
            DecoratorKindView::Inverter => if child == BehaviorStatus::Success {
                BehaviorStatus::Failure
            } else {
                BehaviorStatus::Success
            },
            DecoratorKindView::ForceFailure => BehaviorStatus::Failure,
            DecoratorKindView::ForceSuccess | DecoratorKindView::Succeeder => BehaviorStatus::Success,
            _ => child,
        }
    }
}

fn map_status(d: &DecoratorKind, child: BehaviorStatus) -> (r: BehaviorStatus)
    ensures
        r == mapped_status(d@, child),
{
    if child == BehaviorStatus::Running {
        return BehaviorStatus::Running;
    }
    match d {
        DecoratorKind::Inverter => if child == BehaviorStatus::Success {
            BehaviorStatus::Failure
        } else {
            BehaviorStatus::Success
        },
        DecoratorKind::ForceFailure => BehaviorStatus::Failure,
        DecoratorKind::ForceSuccess | DecoratorKind::Succeeder => BehaviorStatus::Success,
        _ => child,
    }
}

/// `b` is the slot `a` aborted if `a` was running, and `a` itself otherwise.
pub open spec fn aborted_if_running(a: NodeRuntimeState, b: NodeRuntimeState) -> bool {
    if a.status == BehaviorTreeRunState::Running {
        b.is_restarted()
    } else {
        b == a
    }
}

/// Aborts every child of `node` that is still running; afterwards none is.
fn abort_running_children<H: TreeHost>(
    host: &mut H,
    inst: &mut BehaviorTreeInstance,
    bb: &mut BehaviorTreeBlackboard,
    messages: &mut RuntimeMessageBuffer,
    env: &TickEnv,
    def: &BehaviorTreeDefinition,
    node: NodeId,
    reason: &str,
)
    requires
        ready(def@, *old(inst)),
        node.0 < def@.nodes.len(),
    ensures
        calls_within(def@, node.0 as int, old(inst).host_calls@, final(inst).host_calls@),
        messages_kept(*env, *old(messages), *final(messages)),
        ready(def@, *final(inst)),
        final(inst).definition == old(inst).definition,
        outside_unchanged(def@, node.0 as int, old(inst).node_states@, final(inst).node_states@),
        forall|m: int|
            0 <= m < def@.nodes[node.0 as int].children.len() ==> final(inst).node_states@[(
            #[trigger] def@.nodes[node.0 as int].children[m]).0 as int].status
                != BehaviorTreeRunState::Running,
        branches_apart(def@, node.0 as int) ==> forall|m: int|
            0 <= m < def@.nodes[node.0 as int].children.len() ==> #[trigger] aborted_if_running(
                old(inst).node_states@[def@.nodes[node.0 as int].children[m].0 as int],
                final(inst).node_states@[def@.nodes[node.0 as int].children[m].0 as int],
            ),
        forall|j: int|
            old(inst).host_calls@.len() <= j < final(inst).host_calls@.len() ==> is_abort_call(
                #[trigger] final(inst).host_calls@[j],
            ),
        branches_apart(def@, node.0 as int) ==> forall|m: int|
            0 <= m < def@.nodes[node.0 as int].children.len() && def@.nodes[(#[trigger] def@.nodes[node.0 as int].children[m]).0 as int].kind is Action
                && old(inst).node_states@[def@.nodes[node.0 as int].children[m].0 as int].status
                == BehaviorTreeRunState::Running ==> called_with(
                final(inst).host_calls@,
                old(inst).host_calls@.len() as int,
                HostCall::Abort { node: def@.nodes[node.0 as int].children[m] },
            ),
{
    let ghost calls0 = inst.host_calls@;
    proof {
        lemma_calls_none(def@, node.0 as int, calls0);
    }
    let ghost g = graph(def@.nodes);
    let i = node.0 as usize;
    let children = &def.nodes[i].children;
    assert(children@ == g[i as int]);
    let ghost start = inst.node_states@;
    let mut k: usize = 0;
    while k < children.len()
        invariant
            calls0 == old(inst).host_calls@,
            calls_within(def@, node.0 as int, calls0, inst.host_calls@),
        messages_kept(*env, *old(messages), *messages),
            g == graph(def@.nodes),
            children@ == g[i as int],
            children@ == def@.nodes[i as int].children,
            i == node.0,
            i < def@.nodes.len(),
            k <= children@.len(),
            ready(def@, *inst),
            inst.definition == old(inst).definition,
            start == old(inst).node_states@,
            outside_unchanged(def@, i as int, start, inst.node_states@),
            forall|m: int|
                0 <= m < k ==> inst.node_states@[(#[trigger] children@[m]).0 as int].status
                    != BehaviorTreeRunState::Running,
            branches_apart(def@, i as int) ==> forall|m: int|
                0 <= m < children@.len() ==> if m < k {
                    aborted_if_running(start[children@[m].0 as int], #[trigger] inst.node_states@[children@[m].0 as int])
                } else {
                    inst.node_states@[children@[m].0 as int] == start[children@[m].0 as int]
                },
            forall|j: int| calls0.len() <= j < inst.host_calls@.len() ==> is_abort_call(#[trigger] inst.host_calls@[j]),
            branches_apart(def@, i as int) ==> forall|m: int|
                0 <= m < k && def@.nodes[(#[trigger] children@[m]).0 as int].kind is Action
                    && start[children@[m].0 as int].status == BehaviorTreeRunState::Running ==> called_with(
                    inst.host_calls@,
                    calls0.len() as int,
                    HostCall::Abort { node: children@[m] },
                ),
        decreases children@.len() - k,
    {
        let child = children[k];
        proof {
            lemma_child_misses_parent(def@, i as int, k as int);
        }
        if matches!(inst.node_states[child.0 as usize].status, BehaviorTreeRunState::Running) {
            let ghost before = inst.node_states@;
            let ghost cpre = inst.host_calls@;
            abort_subtree(host, inst, bb, messages, env, def, child, reason.to_owned(), true);
            proof {
                lemma_calls_child(def@, node.0 as int, k as int, calls0, cpre, inst.host_calls@);
                assert forall|j: int| calls0.len() <= j < inst.host_calls@.len() implies is_abort_call(#[trigger] inst.host_calls@[j]) by {
                    if j < cpre.len() {
                        assert(cpre =~= inst.host_calls@.subrange(0, cpre.len() as int));
                        assert(cpre[j] == inst.host_calls@.subrange(0, cpre.len() as int)[j]);
                    }
                }
                if branches_apart(def@, i as int) {
                    assert forall|m: int|
                        0 <= m < k + 1 && def@.nodes[(#[trigger] children@[m]).0 as int].kind is Action
                            && start[children@[m].0 as int].status == BehaviorTreeRunState::Running implies called_with(
                            inst.host_calls@,
                            calls0.len() as int,
                            HostCall::Abort { node: children@[m] },
                        ) by {
                        if m < k {
                            lemma_called_with_extends(cpre, inst.host_calls@, calls0.len() as int, HostCall::Abort { node: children@[m] });
                        } else {
                            assert(children@[m] == child);
                            lemma_lone_abort(def@, child, before, cpre, inst.host_calls@);
                            assert(inst.host_calls@[cpre.len() as int] == HostCall::Abort { node: child });
                        }
                    }
                }
            }
            proof {
                if branches_apart(def@, i as int) {
                    lemma_siblings_kept(def@, i as int, k as int, before, inst.node_states@);
                    crate::definition::lemma_path_single(g, child.0 as int);
                    assert(inst.node_states@[child.0 as int].is_restarted());
                    assert(before[children@[k as int].0 as int] == start[children@[k as int].0 as int]);
                    assert forall|m: int| 0 <= m < children@.len() implies if m < k + 1 {
                        aborted_if_running(start[children@[m].0 as int], #[trigger] inst.node_states@[children@[m].0 as int])
                    } else {
                        inst.node_states@[children@[m].0 as int] == start[children@[m].0 as int]
                    } by {
                        if m != k {
                            assert(inst.node_states@[children@[m].0 as int] == before[children@[m].0 as int]);
                        }
                    }
                }
                lemma_child_frame(def@, i as int, k as int, start, before, inst.node_states@);
                crate::definition::lemma_path_single(g, child.0 as int);
                assert forall|m: int|
                    0 <= m < k + 1 implies inst.node_states@[(#[trigger] children@[m]).0 as int].status
                        != BehaviorTreeRunState::Running by {
                    let c = children@[m].0 as int;
                    assert(c < def@.nodes.len());
                    if !reachable(g, child.0 as int, c) {
                        assert(inst.node_states@[c] == before[c]);
                    }
                }
            }
        }
        proof {
            if branches_apart(def@, i as int) {
                assert(inst.node_states@[children@[k as int].0 as int] == start[children@[k as int].0 as int]
                    || start[children@[k as int].0 as int].status == BehaviorTreeRunState::Running);
            }
        }
        k = k + 1;
    }
}

/// How a node's result follows from its children's, as far as the final
/// slots show it: a running sequence or selector has its running child at its
/// cursor, a failed sequence has a failed child, a successful selector a
/// successful child (for nodes whose children's branches are apart); a
/// parallel node's result is its thresholds applied to its children's
/// counts; a result-mapping decorator maps its child's result; a timeout
/// passes a finished child's result through and fails a child it timed out;
/// a condition leaf never reports `Running`.
pub open spec fn kind_result(def: DefinitionView, node: int, env: TickEnv, after: Seq<NodeRuntimeState>, r: BehaviorStatus) -> bool {
    let c = def.nodes[node].children;
    let len = c.len() as int;
    let k = after[node].cursor as int;
    match def.nodes[node].kind {
        NodeKindView::Sequence(_) => branches_apart(def, node) ==> {
            &&& r == BehaviorStatus::Running ==> 0 <= k < len && child_outcome(def, node, after, k) == BehaviorStatus::Running
            &&& r == BehaviorStatus::Failure ==> exists|m: int|
                0 <= m < len && #[trigger] child_outcome(def, node, after, m) == BehaviorStatus::Failure
        },
        NodeKindView::Selector(_) => branches_apart(def, node) ==> {
            &&& r == BehaviorStatus::Running ==> 0 <= k < len && child_outcome(def, node, after, k) == BehaviorStatus::Running
            &&& r == BehaviorStatus::Success ==> exists|m: int|
                0 <= m < len && #[trigger] child_outcome(def, node, after, m) == BehaviorStatus::Success
        },
        NodeKindView::Parallel(policy) => branches_apart(def, node) ==> {
            let succ = children_counted(def, node, after, len, BehaviorStatus::Success);
            let fail = children_counted(def, node, after, len, BehaviorStatus::Failure);
            &&& (r == BehaviorStatus::Success) == threshold_reached(policy.success, succ as int, len)
            &&& r == BehaviorStatus::Failure ==> threshold_reached(policy.failure, fail as int, len) || succ + fail == len
            &&& r == BehaviorStatus::Running ==> !threshold_reached(policy.failure, fail as int, len) && succ + fail < len
        },
        NodeKindView::Decorator(d) => match d {
            DecoratorKindView::Inverter | DecoratorKindView::ForceSuccess | DecoratorKindView::ForceFailure
            | DecoratorKindView::Succeeder => r == mapped_status(d, outcome_of(after[only_child(def, node)].status)),
            DecoratorKindView::Timeout { micros } => {
                let co = outcome_of(after[only_child(def, node)].status);
                r == (if co != BehaviorStatus::Running {
                    co
                } else if env.now - after[node].entered_at >= micros {
                    BehaviorStatus::Failure
                } else {
                    BehaviorStatus::Running
                })
            },
            _ => true,
        },
        NodeKindView::Condition { .. } => r != BehaviorStatus::Running,
        _ => true,
    }
}

/// The handler calls added from `a` to `b` all concern nodes of the branch
/// at `node`.
pub open spec fn calls_within(def: DefinitionView, node: int, a: Seq<HostCall>, b: Seq<HostCall>) -> bool {
    &&& a.is_prefix_of(b)
    &&& forall|j: int| a.len() <= j < b.len() ==> reachable(graph(def.nodes), node, call_node(#[trigger] b[j]).0 as int)
}

/// Calls within the branch of a child of `node` (or of `node` itself) extend
/// calls within the branch of `node`.
proof fn lemma_calls_step(
    def: DefinitionView,
    node: int,
    sub: int,
    a: Seq<HostCall>,
    b: Seq<HostCall>,
    c: Seq<HostCall>,
)
    requires
        calls_within(def, node, a, b),
        calls_within(def, sub, b, c),
        sub == node || exists|m: int|
            0 <= m < def.nodes[node].children.len() && #[trigger] def.nodes[node].children[m].0 == sub,
        0 <= node < def.nodes.len(),
    ensures
        calls_within(def, node, a, c),
{
    let g = graph(def.nodes);
    lemma_prefix_trans(a, b, c);
    if sub != node {
        let m = choose|m: int| 0 <= m < def.nodes[node].children.len() && #[trigger] def.nodes[node].children[m].0 == sub;
        assert(g[node] == def.nodes[node].children);
        crate::definition::lemma_outside_child(g, node, m);
    }
    assert forall|j: int| a.len() <= j < c.len() implies reachable(g, node, call_node(#[trigger] c[j]).0 as int) by {
        if j < b.len() {
            assert(c[j] == c.subrange(0, b.len() as int)[j]);
            assert(c[j] == b[j]);
        }
    }
}

/// An action with no services bound to it: ticking it calls nothing but its
/// own callbacks.
pub open spec fn plain_action(def: DefinitionView, x: int) -> bool {
    &&& def.nodes[x].kind is Action
    &&& def.nodes[x].services.len() == 0
}

/// Ticking the action `node`, whose slot was in state `before`, added at
/// most its start or tick callback: the start callback when it was not
/// running (or had finished), the tick callback when it was running; and
/// always that call when the result is `Running`.
pub open spec fn action_called(a: Seq<HostCall>, b: Seq<HostCall>, node: NodeId, before: BehaviorTreeRunState, r: BehaviorStatus) -> bool {
    let call = HostCall::Action { node, starting: restarts(before), result: r };
    &&& b == a || b == a.push(call)
    &&& r == BehaviorStatus::Running ==> b == a.push(call)
}

/// From `a` to `b`, at most one call was made: a start or tick callback of
/// the action `x`.
pub open spec fn at_most_one_run(a: Seq<HostCall>, b: Seq<HostCall>, x: NodeId) -> bool {
    ||| b == a
    ||| exists|st: bool, res: BehaviorStatus| b == a.push(HostCall::Action { node: x, starting: st, result: res })
}

/// Calls within the branch of child `m` extend calls within the branch of
/// `node`.
proof fn lemma_calls_child(
    def: DefinitionView,
    node: int,
    m: int,
    a: Seq<HostCall>,
    b: Seq<HostCall>,
    c: Seq<HostCall>,
)
    requires
        0 <= node < def.nodes.len(),
        0 <= m < def.nodes[node].children.len(),
        calls_within(def, node, a, b),
        calls_within(def, def.nodes[node].children[m].0 as int, b, c),
    ensures
        calls_within(def, node, a, c),
{
    lemma_calls_step(def, node, def.nodes[node].children[m].0 as int, a, b, c);
}

/// Aborting a running action calls its abort callback and nothing else.
proof fn lemma_lone_abort(def: DefinitionView, n: NodeId, states: Seq<NodeRuntimeState>, a: Seq<HostCall>, b: Seq<HostCall>)
    requires
        def.executable(),
        n.0 < def.nodes.len(),
        def.nodes[n.0 as int].kind is Action,
        states[n.0 as int].status == BehaviorTreeRunState::Running,
        a.is_prefix_of(b),
        aborts_only(b, a.len() as int, |y: int| running_action(def, n.0 as int, states, y)),
        forall|y: int| #[trigger] running_action(def, n.0 as int, states, y) ==> called_for(b, a.len() as int, y),
    ensures
        b == a.push(HostCall::Abort { node: n }),
{
    let g = graph(def.nodes);
    let x = n.0 as int;
    crate::definition::lemma_path_single(g, x);
    assert(def.nodes[x].kind.is_leaf());
    assert(g[x] == def.nodes[x].children);
    assert(running_action(def, x, states, x));
    assert(called_for(b, a.len() as int, x));
    let j = choose|j: int| a.len() <= j < b.len() && call_node(#[trigger] b[j]).0 == x;
    assert forall|k: int| a.len() <= k < b.len() implies call_node(#[trigger] b[k]) == n by {
        let y = call_node(b[k]).0 as int;
        assert(running_action(def, x, states, y));
        if y != x {
            crate::definition::lemma_reach_split(g, x, y);
        }
    }
    if b.len() > a.len() + 1 {
        let k1 = a.len() as int;
        let k2 = (a.len() + 1) as int;
        assert(call_node(b[k1]) == n);
        assert(call_node(b[k2]) == n);
        assert(call_node(b[k1]) != call_node(b[k2]));
    }
    assert(b.len() == a.len() + 1);
    assert(b[j] is Abort);
    assert(b[j] == HostCall::Abort { node: n });
    assert(b =~= a.push(HostCall::Abort { node: n })) by {
        assert forall|k: int| 0 <= k < a.len() implies b[k] == a[k] by {
            assert(b.subrange(0, a.len() as int)[k] == b[k]);
        }
    }
}

/// `c` is an abort callback.
pub open spec fn is_abort_call(c: HostCall) -> bool {
    c is Abort
}

/// Some call from position `from` on is `c`.
pub open spec fn called_with(calls: Seq<HostCall>, from: int, c: HostCall) -> bool {
    exists|j: int| from <= j < calls.len() && #[trigger] calls[j] == c
}

/// A call made stays made as calls are added.
proof fn lemma_called_with_extends(a: Seq<HostCall>, b: Seq<HostCall>, from: int, c: HostCall)
    requires
        0 <= from,
        a.is_prefix_of(b),
        called_with(a, from, c),
    ensures
        called_with(b, from, c),
{
    let j = choose|j: int| from <= j < a.len() && #[trigger] a[j] == c;
    assert(a =~= b.subrange(0, a.len() as int));
    assert(a[j] == b.subrange(0, a.len() as int)[j]);
    assert(b[j] == c);
}

/// Calls within the branch at `x` name no node outside it.
proof fn lemma_not_called(def: DefinitionView, x: int, y: int, from: int, a: Seq<HostCall>, b: Seq<HostCall>)
    requires
        calls_within(def, x, a, b),
        0 <= from <= a.len(),
        !called_for(a, from, y),
        !reachable(graph(def.nodes), x, y),
    ensures
        !called_for(b, from, y),
{
    if called_for(b, from, y) {
        let j = choose|j: int| from <= j < b.len() && call_node(#[trigger] b[j]).0 == y;
        if j < a.len() {
            assert(a =~= b.subrange(0, a.len() as int));
            assert(a[j] == b.subrange(0, a.len() as int)[j]);
            assert(called_for(a, from, y));
        }
    }
}

/// The action `x` got a callback (start or tick) that returned `Running`.
pub open spec fn ran_running(calls: Seq<HostCall>, from: int, x: NodeId) -> bool {
    ||| called_with(calls, from, HostCall::Action { node: x, starting: true, result: BehaviorStatus::Running })
    ||| called_with(calls, from, HostCall::Action { node: x, starting: false, result: BehaviorStatus::Running })
}

/// `c` is the tick callback (not the start callback) of the action `x`.
pub open spec fn is_tick_call(c: HostCall, x: NodeId) -> bool {
    match c {
        HostCall::Action { node, starting, .. } => node == x && !starting,
        _ => false,
    }
}

/// The action `x` got its tick callback from position `from` on.
pub open spec fn ticked_on(calls: Seq<HostCall>, from: int, x: NodeId) -> bool {
    exists|j: int| from <= j < calls.len() && #[trigger] is_tick_call(calls[j], x)
}

/// A call naming a node outside the branch at `x` was there before calls
/// within that branch were added.
proof fn lemma_call_elsewhere(def: DefinitionView, x: int, a: Seq<HostCall>, b: Seq<HostCall>, from: int, c: HostCall)
    requires
        calls_within(def, x, a, b),
        0 <= from <= a.len(),
        !reachable(graph(def.nodes), x, call_node(c).0 as int),
        called_with(b, from, c),
    ensures
        called_with(a, from, c),
{
    let j = choose|j: int| from <= j < b.len() && #[trigger] b[j] == c;
    if j >= a.len() {
        assert(reachable(graph(def.nodes), x, call_node(b[j]).0 as int));
    }
    assert(a =~= b.subrange(0, a.len() as int));
    assert(a[j] == b.subrange(0, a.len() as int)[j]);
}

/// A tick callback of an action outside the branch at `x` was there before
/// calls within that branch were added.
proof fn lemma_tick_elsewhere(def: DefinitionView, x: int, a: Seq<HostCall>, b: Seq<HostCall>, from: int, y: NodeId)
    requires
        calls_within(def, x, a, b),
        0 <= from <= a.len(),
        !reachable(graph(def.nodes), x, y.0 as int),
        ticked_on(b, from, y),
    ensures
        ticked_on(a, from, y),
{
    let j = choose|j: int| from <= j < b.len() && #[trigger] is_tick_call(b[j], y);
    if j >= a.len() {
        assert(reachable(graph(def.nodes), x, call_node(b[j]).0 as int));
        assert(call_node(b[j]) == y);
    }
    assert(a =~= b.subrange(0, a.len() as int));
    assert(a[j] == b.subrange(0, a.len() as int)[j]);
    assert(is_tick_call(a[j], y));
}

/// Abort callbacks added to the calls add no start or tick callback.
proof fn lemma_aborts_keep(a: Seq<HostCall>, b: Seq<HostCall>, from: int, x: NodeId)
    requires
        a.is_prefix_of(b),
        0 <= from <= a.len(),
        forall|j: int| a.len() <= j < b.len() ==> is_abort_call(#[trigger] b[j]),
    ensures
        ran_running(b, from, x) ==> ran_running(a, from, x),
        ticked_on(b, from, x) ==> ticked_on(a, from, x),
{
    assert(a =~= b.subrange(0, a.len() as int));
    let c1 = HostCall::Action { node: x, starting: true, result: BehaviorStatus::Running };
    let c2 = HostCall::Action { node: x, starting: false, result: BehaviorStatus::Running };
    if called_with(b, from, c1) {
        let j = choose|j: int| from <= j < b.len() && #[trigger] b[j] == c1;
        if j >= a.len() {
            assert(is_abort_call(b[j]));
        }
        assert(a[j] == b.subrange(0, a.len() as int)[j]);
    }
    if called_with(b, from, c2) {
        let j = choose|j: int| from <= j < b.len() && #[trigger] b[j] == c2;
        if j >= a.len() {
            assert(is_abort_call(b[j]));
        }
        assert(a[j] == b.subrange(0, a.len() as int)[j]);
    }
    if ticked_on(b, from, x) {
        let j = choose|j: int| from <= j < b.len() && #[trigger] is_tick_call(b[j], x);
        if j >= a.len() {
            assert(is_abort_call(b[j]));
        }
        assert(a[j] == b.subrange(0, a.len() as int)[j]);
        assert(is_tick_call(a[j], x));
    }
}

/// A node kind that may abort a branch while it ticks: a reactive sequence,
/// a reactive selector that monitors lower priorities, a parallel node that
/// aborts running siblings, a timeout, and a guard or blackboard condition
/// that monitors itself.
pub open spec fn aborting_kind(k: NodeKindView) -> bool {
    match k {
        NodeKindView::Sequence(kind) => kind == SequenceKind::ReactiveSequence,
        NodeKindView::Selector(kind) => preempts_lower(kind),
        NodeKindView::Parallel(policy) => policy.abort_running_siblings,
        NodeKindView::Decorator(d) => match d {
            DecoratorKindView::Timeout { .. } => true,
            DecoratorKindView::Guard { abort_policy, .. } => abort_policy == AbortPolicy::SelfOnly || abort_policy
                == AbortPolicy::Both,
            DecoratorKindView::BlackboardCondition { abort_policy, .. } => abort_policy == AbortPolicy::SelfOnly
                || abort_policy == AbortPolicy::Both,
            _ => false,
        },
        _ => false,
    }
}

/// No node of the branch at `node` may abort anything.
pub open spec fn quiet(def: DefinitionView, node: int) -> bool {
    forall|x: int| 0 <= x < def.nodes.len() && #[trigger] reachable(graph(def.nodes), node, x) ==> !aborting_kind(def.nodes[x].kind)
}

/// Nothing was aborted from `a` to `b`: no abort counted, no abort message
/// sent, no abort callback called.
pub open spec fn nothing_aborted(
    a: BehaviorTreeInstance,
    b: BehaviorTreeInstance,
    ma: RuntimeMessageBuffer,
    mb: RuntimeMessageBuffer,
) -> bool {
    &&& b.metrics.abort_count == a.metrics.abort_count
    &&& mb.branch_aborted@ == ma.branch_aborted@
    &&& a.host_calls@.is_prefix_of(b.host_calls@)
    &&& forall|j: int| a.host_calls@.len() <= j < b.host_calls@.len() ==> !is_abort_call(#[trigger] b.host_calls@[j])
}

proof fn lemma_nothing_aborted_trans(
    a: BehaviorTreeInstance,
    b: BehaviorTreeInstance,
    c: BehaviorTreeInstance,
    ma: RuntimeMessageBuffer,
    mb: RuntimeMessageBuffer,
    mc: RuntimeMessageBuffer,
)
    requires
        nothing_aborted(a, b, ma, mb),
        nothing_aborted(b, c, mb, mc),
    ensures
        nothing_aborted(a, c, ma, mc),
{
    lemma_prefix_trans(a.host_calls@, b.host_calls@, c.host_calls@);
    assert forall|j: int| a.host_calls@.len() <= j < c.host_calls@.len() implies !is_abort_call(#[trigger] c.host_calls@[j]) by {
        if j < b.host_calls@.len() {
            assert(b.host_calls@ =~= c.host_calls@.subrange(0, b.host_calls@.len() as int));
            assert(b.host_calls@[j] == c.host_calls@.subrange(0, b.host_calls@.len() as int)[j]);
        }
    }
}

/// A quiet branch's children are quiet, and the node itself aborts nothing.
proof fn lemma_quiet_child(def: DefinitionView, node: int, m: int)
    requires
        0 <= node < def.nodes.len(),
        0 <= m < def.nodes[node].children.len(),
        quiet(def, node),
    ensures
        quiet(def, def.nodes[node].children[m].0 as int),
        !aborting_kind(def.nodes[node].kind),
{
    let g = graph(def.nodes);
    assert(g[node] == def.nodes[node].children);
    crate::definition::lemma_outside_child(g, node, m);
    crate::definition::lemma_path_single(g, node);
}

/// No call added: trivially within any branch.
proof fn lemma_calls_none(def: DefinitionView, node: int, a: Seq<HostCall>)
    ensures
        calls_within(def, node, a, a),
{
    assert(a.is_prefix_of(a)) by {
        assert(a =~= a.subrange(0, a.len() as int));
    }
}

/// How a decorator's result follows from its slot before the tick
/// (`before`) and its child's result after it (`after`): a cooldown fails
/// while it blocks and passes its child's result through otherwise; a
/// limiter fails once used up and passes the result through before; a
/// delay runs until its deadline and then passes the result through; a
/// run-once decorator reports its stored status once it has run; a
/// repeating decorator finishes only as its rule says.
pub open spec fn decorator_result(
    def: DefinitionView,
    node: int,
    env: TickEnv,
    before: Seq<NodeRuntimeState>,
    after: Seq<NodeRuntimeState>,
    r: BehaviorStatus,
) -> bool {
    let child = only_child(def, node);
    let co = outcome_of(after[child].status);
    match def.nodes[node].kind {
        NodeKindView::Decorator(d) => match d {
            DecoratorKindView::Cooldown { micros } => {
                let blocked = env.now < before[node].cooldown_until && before[child].status
                    != BehaviorTreeRunState::Running;
                &&& blocked ==> r == BehaviorStatus::Failure
                &&& !blocked ==> r == co
                &&& (!blocked && r != BehaviorStatus::Running) ==> after[node].cooldown_until == clamp_time(
                    env.now + micros,
                )
            },
            DecoratorKindView::Limiter { limit } => {
                let used = before[node].limiter_used;
                &&& used >= limit ==> r == BehaviorStatus::Failure
                &&& used < limit ==> r == co
                &&& (used < limit && r != BehaviorStatus::Running) ==> after[node].limiter_used == used + 1
            },
            DecoratorKindView::Delay { micros } => {
                let due = match before[node].delay_until {
                    Some(t) => t,
                    None => clamp_time(env.now + micros),
                };
                &&& env.now < due ==> r == BehaviorStatus::Running && after[node].delay_until == Some(due)
                &&& env.now >= due ==> r == co
            },
            DecoratorKindView::RunOnce { completed_status } => {
                let counter = before[node].counter;
                &&& counter > 0 ==> r == completed_status
                &&& counter == 0 ==> r == co
                &&& (counter == 0 && r != BehaviorStatus::Running) ==> after[node].counter == 1
            },
            DecoratorKindView::Retry { .. } | DecoratorKindView::Repeater { .. } | DecoratorKindView::UntilSuccess {
                ..
            } | DecoratorKindView::UntilFailure { .. } => r != BehaviorStatus::Running ==> {
                &&& after[node].counter == 0
                &&& co != BehaviorStatus::Running
                &&& repeat_outcome(d, before[node].counter, co) == Some(r)
            },
            _ => true,
        },
        _ => true,
    }
}

/// Ticks one node: its due services first, then its kind's behaviour.
#[verifier::rlimit(100)]
fn tick_node<H: TreeHost>(
    host: &mut H,
    inst: &mut BehaviorTreeInstance,
    bb: &mut BehaviorTreeBlackboard,
    messages: &mut RuntimeMessageBuffer,
    path: &mut Vec<NodeId>,
    env: &TickEnv,
    def: &BehaviorTreeDefinition,
    node: NodeId,
) -> (r: BehaviorStatus)
    requires
        ready(def@, *old(inst)),
        node.0 < def@.nodes.len(),
    ensures
        def@.nodes[node.0 as int].services.len() == 0 ==> decorator_result(
            def@,
            node.0 as int,
            *env,
            old(inst).node_states@,
            final(inst).node_states@,
            r,
        ),
        quiet(def@, node.0 as int) ==> nothing_aborted(*old(inst), *final(inst), *old(messages), *final(messages)),
        plain_action(def@, node.0 as int) ==> action_called(
            old(inst).host_calls@,
            final(inst).host_calls@,
            node,
            old(inst).node_states@[node.0 as int].status,
            r,
        ),
        calls_within(def@, node.0 as int, old(inst).host_calls@, final(inst).host_calls@),
        finish_reported(*env, node, *final(messages), r),
        messages_kept(*env, *old(messages), *final(messages)),
        ticked(def@, node.0 as int, *old(inst), *final(inst), old(path)@, final(path)@, r),
        kind_result(def@, node.0 as int, *env, final(inst).node_states@, r),
    decreases node_rank(def@, node.0 as int), 1nat,
{
    proof {
        crate::definition::lemma_path_single(graph(def@.nodes), node.0 as int);
    }
    let i = node.0 as usize;
    assert(def@.nodes[i as int] == def.nodes@[i as int]@);
    let ghost start = inst.node_states@;
    let ghost calls0 = inst.host_calls@;
    run_services(host, inst, bb, env, def, node);
    let ghost mid = inst.node_states@;
    let ghost calls_mid = inst.host_calls@;
    let ghost inst_mid = *inst;
    proof {
        assert(def@.nodes[i as int].services.len() == def.nodes@[i as int].services@.len());
    }
    let ghost msgs_mid = *messages;
    proof {
        if quiet(def@, i as int) {
            let runs = choose|runs: Seq<int>| #[trigger] services_ran(
                runs,
                def.nodes@[i as int].services@,
                *env,
                node,
                *old(inst),
                *inst,
                *old(bb),
                *bb,
            );
            assert forall|j: int| old(inst).host_calls@.len() <= j < inst.host_calls@.len() implies !is_abort_call(
                #[trigger] inst.host_calls@[j],
            ) by {
                let jj = j - old(inst).host_calls@.len();
                assert(is_service_call(added_call(*old(inst), *inst, jj), node, runs[jj]));
            }
        }
    }
    let r = match &def.nodes[i].kind {
        NodeKind::Action(key) => {
            let registered = host.has_action(key);
            tick_action(host, inst, bb, messages, path, env, def, node, key, registered)
        },
        NodeKind::Condition { key, .. } => {
            let holds = host.evaluate_condition(def, node, key, bb);
            let r = tick_condition(inst, messages, env, def, node, holds);
            proof {
                assert(path@ == old(path)@);
            }
            r
        },
        NodeKind::Sequence(kind) => tick_sequence(host, inst, bb, messages, path, env, def, node, *kind),
        NodeKind::Selector(kind) => tick_selector(host, inst, bb, messages, path, env, def, node, *kind),
        NodeKind::Parallel(policy) => tick_parallel(host, inst, bb, messages, path, env, def, node, *policy),
        NodeKind::Decorator(d) => {
            assert(def@.nodes[i as int].kind.is_decorator());
            match d {
                DecoratorKind::Inverter | DecoratorKind::ForceSuccess | DecoratorKind::ForceFailure
                | DecoratorKind::Succeeder => tick_mapping(host, inst, bb, messages, path, env, def, node, d),
                DecoratorKind::Timeout { micros } => tick_timeout(host, inst, bb, messages, path, env, def, node, *micros),
                DecoratorKind::Cooldown { micros } => tick_cooldown(host, inst, bb, messages, path, env, def, node, *micros),
                DecoratorKind::Retry { .. } | DecoratorKind::Repeater { .. } | DecoratorKind::UntilSuccess { .. }
                | DecoratorKind::UntilFailure { .. } => tick_repeating(host, inst, bb, messages, path, env, def, node, d),
                DecoratorKind::Limiter { limit } => tick_limiter(host, inst, bb, messages, path, env, def, node, *limit),
                DecoratorKind::Guard { condition, abort_policy, .. } => {
                    let holds = host.evaluate_condition(def, node, condition, bb);
                    tick_guarded(host, inst, bb, messages, path, env, def, node, holds, *abort_policy, "guard failed")
                },
                DecoratorKind::Delay { micros } => tick_delay(host, inst, bb, messages, path, env, def, node, *micros),
                DecoratorKind::RunOnce { completed_status } => tick_run_once(host, inst, bb, messages, path, env, def, node, *completed_status),
                DecoratorKind::BlackboardCondition { key, condition, abort_policy } => {
                    let holds = condition.evaluate(bb.value(*key));
                    tick_guarded(
                        host,
                        inst,
                        bb,
                        messages,
                        path,
                        env,
                        def,
                        node,
                        holds,
                        *abort_policy,
                        "blackboard condition failed",
                    )
                },
            }
        },
    };
    proof {
        lemma_frame_trans(def@, i as int, start, mid, inst.node_states@);
        lemma_calls_step(def@, i as int, i as int, calls0, calls_mid, inst.host_calls@);
        if quiet(def@, i as int) {
            lemma_nothing_aborted_trans(*old(inst), inst_mid, *inst, *old(messages), msgs_mid, *messages);
        }
    }
    r
}

/// No child of `node` reaches another of its children (nor is listed
/// twice): the children's branches are apart, so ticking one leaves the
/// others' slots alone.
pub open spec fn branches_apart(def: DefinitionView, node: int) -> bool {
    let c = def.nodes[node].children;
    forall|m1: int, m2: int|
        0 <= m1 < c.len() && 0 <= m2 < c.len() && m1 != m2 ==> !#[trigger] reachable(
            graph(def.nodes),
            c[m1].0 as int,
            c[m2].0 as int,
        )
}

/// The result that child `m` of `node` shows in `states`.
pub open spec fn child_outcome(def: DefinitionView, node: int, states: Seq<NodeRuntimeState>, m: int) -> BehaviorStatus {
    outcome_of(states[def.nodes[node].children[m].0 as int].status)
}

/// The children of `node` before index `s` have the slots they had in `a`.
pub open spec fn children_before_kept(
    def: DefinitionView,
    node: int,
    a: Seq<NodeRuntimeState>,
    b: Seq<NodeRuntimeState>,
    s: int,
) -> bool {
    forall|m: int|
        0 <= m < def.nodes[node].children.len() && m < s ==> #[trigger] b[def.nodes[node].children[m].0 as int]
            == a[def.nodes[node].children[m].0 as int]
}

/// Every child of `node` from `s` up to (not including) `e` shows `status`.
pub open spec fn children_show(
    def: DefinitionView,
    node: int,
    states: Seq<NodeRuntimeState>,
    s: int,
    e: int,
    status: BehaviorStatus,
) -> bool {
    forall|m: int| s <= m < e ==> #[trigger] child_outcome(def, node, states, m) == status
}

/// A pass over the children of `node` from `s` went through children
/// showing `passed` and stopped at child `f`, which shows `stop`.
pub open spec fn pass_stopped_at(
    def: DefinitionView,
    node: int,
    states: Seq<NodeRuntimeState>,
    s: int,
    f: int,
    passed: BehaviorStatus,
    stop: BehaviorStatus,
) -> bool {
    &&& s <= f < def.nodes[node].children.len()
    &&& child_outcome(def, node, states, f) == stop
    &&& children_show(def, node, states, s, f, passed)
}

/// Where a sequence starts its pass.
pub open spec fn sequence_start(kind: SequenceKind, cursor: usize) -> int {
    if kind == SequenceKind::ReactiveSequence {
        0
    } else {
        cursor as int
    }
}

/// Where a selector starts its pass.
pub open spec fn selector_start(kind: SelectorKind, cursor: usize) -> int {
    if preempts_lower(kind) {
        0
    } else {
        cursor as int
    }
}

/// Ticking child `x` of `node` leaves the slot of a sibling `m` alone when
/// the branches are apart.
proof fn lemma_sibling_kept(
    def: DefinitionView,
    node: int,
    m: int,
    x: int,
    a: Seq<NodeRuntimeState>,
    b: Seq<NodeRuntimeState>,
)
    requires
        def.executable(),
        0 <= node < def.nodes.len(),
        a.len() == def.nodes.len(),
        0 <= m < def.nodes[node].children.len(),
        0 <= x < def.nodes[node].children.len(),
        m != x,
        branches_apart(def, node),
        outside_unchanged(def, def.nodes[node].children[x].0 as int, a, b),
    ensures
        b[def.nodes[node].children[m].0 as int] == a[def.nodes[node].children[m].0 as int],
{
    lemma_child_misses_parent(def, node, m);
    let c = def.nodes[node].children;
    assert(!reachable(graph(def.nodes), c[x].0 as int, c[m].0 as int));
}

/// A change to the node's own slot leaves its children's slots alone.
proof fn lemma_children_kept(def: DefinitionView, node: int, a: Seq<NodeRuntimeState>, b: Seq<NodeRuntimeState>)
    requires
        def.executable(),
        0 <= node < def.nodes.len(),
        a.len() == def.nodes.len(),
        b.len() == a.len(),
        forall|j: int| 0 <= j < a.len() && j != node ==> #[trigger] b[j] == a[j],
    ensures
        forall|m: int|
            0 <= m < def.nodes[node].children.len() ==> #[trigger] b[def.nodes[node].children[m].0 as int]
                == a[def.nodes[node].children[m].0 as int],
{
    assert forall|m: int| 0 <= m < def.nodes[node].children.len() implies #[trigger] b[def.nodes[node].children[m].0 as int]
        == a[def.nodes[node].children[m].0 as int] by {
        lemma_child_misses_parent(def, node, m);
    }
}

/// Ticking child `x` leaves every other child's slot alone when the
/// branches are apart.
proof fn lemma_siblings_kept(
    def: DefinitionView,
    node: int,
    x: int,
    a: Seq<NodeRuntimeState>,
    b: Seq<NodeRuntimeState>,
)
    requires
        def.executable(),
        0 <= node < def.nodes.len(),
        a.len() == def.nodes.len(),
        0 <= x < def.nodes[node].children.len(),
        branches_apart(def, node),
        outside_unchanged(def, def.nodes[node].children[x].0 as int, a, b),
    ensures
        forall|m: int|
            0 <= m < def.nodes[node].children.len() && m != x ==> #[trigger] b[def.nodes[node].children[m].0 as int]
                == a[def.nodes[node].children[m].0 as int],
{
    assert forall|m: int| 0 <= m < def.nodes[node].children.len() && m != x implies #[trigger] b[def.nodes[
        node].children[m].0 as int] == a[def.nodes[node].children[m].0 as int] by {
        lemma_sibling_kept(def, node, m, x, a, b);
    }
}

/// Ticks a sequence: children in order from the cursor (from the first
/// child when reactive) until one fails or runs.
fn tick_sequence<H: TreeHost>(
    host: &mut H,
    inst: &mut BehaviorTreeInstance,
    bb: &mut BehaviorTreeBlackboard,
    messages: &mut RuntimeMessageBuffer,
    path: &mut Vec<NodeId>,
    env: &TickEnv,
    def: &BehaviorTreeDefinition,
    node: NodeId,
    kind: SequenceKind,
) -> (r: BehaviorStatus)
    requires
        ready(def@, *old(inst)),
        node.0 < def@.nodes.len(),
        def@.nodes[node.0 as int].kind == NodeKindView::Sequence(kind),
    ensures
        quiet(def@, node.0 as int) ==> nothing_aborted(*old(inst), *final(inst), *old(messages), *final(messages)),
        calls_within(def@, node.0 as int, old(inst).host_calls@, final(inst).host_calls@),
        finish_reported(*env, node, *final(messages), r),
        messages_kept(*env, *old(messages), *final(messages)),
        ticked(def@, node.0 as int, *old(inst), *final(inst), old(path)@, final(path)@, r),
        ({
            let p = old(inst).node_states@[node.0 as int].cursor as int;
            let children = def@.nodes[node.0 as int].children;
            let after = final(inst).node_states@;
            let k = after[node.0 as int].cursor as int;
            (kind == SequenceKind::ReactiveSequence && p < children.len() && r == BehaviorStatus::Running && k != p
                && children[k] != children[p]) ==> forall|j: int|
                0 <= j < def@.nodes.len() && #[trigger] reachable(graph(def@.nodes), children[p].0 as int, j)
                    ==> after[j].is_restarted()
        }),
        branches_apart(def@, node.0 as int) ==> ({
            let n = node.0 as int;
            let p = old(inst).node_states@[n].cursor;
            let s = sequence_start(kind, p);
            let len = def@.nodes[n].children.len() as int;
            let after = final(inst).node_states@;
            let k = after[n].cursor as int;
            &&& children_before_kept(def@, n, old(inst).node_states@, after, s)
            &&& forall|m: int|
                0 <= m < len && m < s ==> !called_for(
                    final(inst).host_calls@,
                    old(inst).host_calls@.len() as int,
                    (#[trigger] def@.nodes[n].children[m]).0 as int,
                )
            &&& (r == BehaviorStatus::Running && kind != SequenceKind::ReactiveSequence && plain_action(
                def@,
                def@.nodes[n].children[k].0 as int,
            ) && old(inst).node_states@[def@.nodes[n].children[k].0 as int].status
                == BehaviorTreeRunState::Running) ==> called_with(
                final(inst).host_calls@,
                old(inst).host_calls@.len() as int,
                HostCall::Action { node: def@.nodes[n].children[k], starting: false, result: BehaviorStatus::Running },
            )
            &&& r == BehaviorStatus::Success ==> k == 0 && children_show(def@, n, after, s, len, BehaviorStatus::Success)
            &&& r == BehaviorStatus::Failure ==> exists|f: int|
                #[trigger] pass_stopped_at(def@, n, after, s, f, BehaviorStatus::Success, BehaviorStatus::Failure)
                    && k == (if kind == SequenceKind::SequenceWithMemory {
                    f
                } else {
                    0
                })
            &&& r == BehaviorStatus::Running ==> {
                &&& s <= k < len
                &&& child_outcome(def@, n, after, k) == BehaviorStatus::Running
                &&& forall|m: int|
                    s <= m < k && !(kind == SequenceKind::ReactiveSequence && m == p) ==> #[trigger] child_outcome(
                        def@,
                        n,
                        after,
                        m,
                    ) == BehaviorStatus::Success
            }
        }),
    decreases node_rank(def@, node.0 as int), 0nat,
{
    proof {
        crate::definition::lemma_path_single(graph(def@.nodes), node.0 as int);
    }
    let ghost calls0 = inst.host_calls@;
    proof {
        lemma_calls_none(def@, node.0 as int, calls0);
    }
    let ghost g = graph(def@.nodes);
    proof {
        lemma_ranked(def@);
    }
    let i = node.0 as usize;
    let children = &def.nodes[i].children;
    assert(children@ == g[i as int]);
    let ghost start = inst.node_states@;
    enter(inst, messages, env, def, node);
    proof {
        lemma_self_frame(def@, i as int, start, inst.node_states@);
    }
    let previous_cursor = inst.node_states[i].cursor;
    let reactive = kind == SequenceKind::ReactiveSequence;
    let mut index: usize = if reactive {
        0
    } else {
        previous_cursor
    };
    let ghost s = index as int;
    let ghost apart = branches_apart(def@, i as int);
    proof {
        if apart {
            lemma_children_kept(def@, i as int, start, inst.node_states@);
        }
    }
    while index < children.len()
        invariant
            quiet(def@, node.0 as int) ==> nothing_aborted(*old(inst), *inst, *old(messages), *messages),
            calls0 == old(inst).host_calls@,
            calls_within(def@, node.0 as int, calls0, inst.host_calls@),
        messages_kept(*env, *old(messages), *messages),
            g == graph(def@.nodes),
            children@ == g[i as int],
            children@ == def@.nodes[i as int].children,
            i == node.0,
            i < def@.nodes.len(),
            def@.nodes[i as int].kind == NodeKindView::Sequence(kind),
            reactive == (kind == SequenceKind::ReactiveSequence),
            previous_cursor == old(inst).node_states@[i as int].cursor,
            ready(def@, *inst),
            inst.definition == old(inst).definition,
            ranked_by(g, some_rank(g)),
            start == old(inst).node_states@,
            outside_unchanged(def@, i as int, start, inst.node_states@),
            old(path)@.is_prefix_of(path@),
            s == sequence_start(kind, previous_cursor),
            s <= index,
            apart == branches_apart(def@, i as int),
            apart ==> children_before_kept(def@, i as int, start, inst.node_states@, s),
            apart ==> children_show(def@, i as int, inst.node_states@, s, index as int, BehaviorStatus::Success),
            apart ==> forall|m: int|
                index <= m < children@.len() ==> #[trigger] inst.node_states@[children@[m].0 as int]
                    == start[children@[m].0 as int],
            apart ==> forall|m: int|
                0 <= m < children@.len() && m < s ==> !called_for(
                    inst.host_calls@,
                    calls0.len() as int,
                    (#[trigger] children@[m]).0 as int,
                ),
        decreases children@.len() - index,
    {
        let child = children[index];
        proof {
            lemma_child_misses_parent(def@, i as int, index as int);
        }
        let child_running = matches!(inst.node_states[child.0 as usize].status, BehaviorTreeRunState::Running);
        let restart_child = match kind {
            SequenceKind::ReactiveSequence => true,
            SequenceKind::Sequence => !child_running,
            SequenceKind::SequenceWithMemory => index == previous_cursor && !child_running,
        };
        if restart_child {
            let ghost before = inst.node_states@;
            reset_subtree(inst, def, child);
            proof {
                lemma_child_frame(def@, i as int, index as int, start, before, inst.node_states@);
                if apart {
                    lemma_siblings_kept(def@, i as int, index as int, before, inst.node_states@);
                    assert forall|m: int| s <= m < index implies #[trigger] child_outcome(def@, i as int, inst.node_states@, m)
                        == BehaviorStatus::Success by {
                        assert(child_outcome(def@, i as int, before, m) == BehaviorStatus::Success);
                    }
                }
            }
        }
        let ghost before = inst.node_states@;
        let ghost path_before = path@;
        let ghost ipre = *inst;
        let ghost mpre = *messages;
let ghost cpre = inst.host_calls@;
        let result = tick_node(host, inst, bb, messages, path, env, def, child);
        proof {
            lemma_calls_child(def@, node.0 as int, index as int, calls0, cpre, inst.host_calls@);
            if quiet(def@, node.0 as int) {
                lemma_quiet_child(def@, node.0 as int, index as int);
                lemma_nothing_aborted_trans(*old(inst), ipre, *inst, *old(messages), mpre, *messages);
            }
            if apart {
                assert forall|m: int| 0 <= m < children@.len() && m < s implies !called_for(
                    inst.host_calls@,
                    calls0.len() as int,
                    (#[trigger] children@[m]).0 as int,
                ) by {
                    lemma_sibling_kept(def@, i as int, m, index as int, start, start);
                    assert(!reachable(g, children@[index as int].0 as int, children@[m].0 as int));
                    lemma_not_called(def@, child.0 as int, children@[m].0 as int, calls0.len() as int, cpre, inst.host_calls@);
                }
            }
        }
        proof {
            lemma_child_frame(def@, i as int, index as int, start, before, inst.node_states@);
            lemma_prefix_trans(old(path)@, path_before, path@);
            if apart {
                lemma_siblings_kept(def@, i as int, index as int, before, inst.node_states@);
                assert forall|m: int| s <= m < index implies #[trigger] child_outcome(def@, i as int, inst.node_states@, m)
                    == BehaviorStatus::Success by {
                    assert(child_outcome(def@, i as int, before, m) == BehaviorStatus::Success);
                }
                assert(child_outcome(def@, i as int, inst.node_states@, index as int) == result);
            }
        }
        let ghost ticked_states = inst.node_states@;
        let ghost calls_ticked = inst.host_calls@;
        proof {
            if apart && !reactive && start[child.0 as int].status == BehaviorTreeRunState::Running {
                assert(children@[index as int] == child);
                assert(before[child.0 as int] == start[child.0 as int]);
            }
        }
        if result == BehaviorStatus::Failure {
            if reactive && previous_cursor > index && previous_cursor < children.len() {
                proof {
                    lemma_child_misses_parent(def@, i as int, previous_cursor as int);
                }
                let ghost before = inst.node_states@;
                let ghost cpre = inst.host_calls@;
                abort_subtree(
                    host,
                    inst,
                    bb,
                    messages,
                    env,
                    def,
                    children[previous_cursor],
                    String::from_str("reactive sequence aborted"),
                    true,
                );
                proof {
                    lemma_calls_child(def@, node.0 as int, previous_cursor as int, calls0, cpre, inst.host_calls@);
                }
                proof {
                    lemma_child_frame(def@, i as int, previous_cursor as int, start, before, inst.node_states@);
                    if apart {
                        lemma_siblings_kept(def@, i as int, previous_cursor as int, before, inst.node_states@);
                    }
                }
            }
            let cursor = if kind == SequenceKind::SequenceWithMemory {
                index
            } else {
                0
            };
            let ghost before = inst.node_states@;
            inst.node_states[i].cursor = cursor;
            proof {
                lemma_self_frame(def@, i as int, before, inst.node_states@);
                lemma_frame_trans(def@, i as int, start, before, inst.node_states@);
            }
            let ghost before_finish = inst.node_states@;
            let r = finish_node(inst, messages, env, def, node, BehaviorStatus::Failure);
            proof {
                lemma_frame_trans(def@, i as int, start, before_finish, inst.node_states@);
                if apart {
                    lemma_children_kept(def@, i as int, before, before_finish);
                    lemma_children_kept(def@, i as int, before_finish, inst.node_states@);
                    let fin = inst.node_states@;
                    assert forall|m: int| 0 <= m < children@.len() && m <= index implies #[trigger] fin[children@[
                        m].0 as int] == ticked_states[children@[m].0 as int] by {
                        assert(fin[children@[m].0 as int] == before_finish[children@[m].0 as int]);
                        assert(before_finish[children@[m].0 as int] == before[children@[m].0 as int]);
                    }
                    assert forall|m: int| s <= m < index implies #[trigger] child_outcome(def@, i as int, fin, m)
                        == BehaviorStatus::Success by {
                        assert(child_outcome(def@, i as int, ticked_states, m) == BehaviorStatus::Success);
                    }
                    assert(child_outcome(def@, i as int, fin, index as int) == BehaviorStatus::Failure);
                    assert(pass_stopped_at(
                        def@,
                        i as int,
                        fin,
                        s,
                        index as int,
                        BehaviorStatus::Success,
                        BehaviorStatus::Failure,
                    ));
                    assert forall|m: int| 0 <= m < children@.len() && m < s implies #[trigger] fin[children@[m].0 as int]
                        == start[children@[m].0 as int] by {
                        assert(ticked_states[children@[m].0 as int] == start[children@[m].0 as int]);
                    }
                }
            }
            return r;
        } else if result == BehaviorStatus::Running {
            if reactive && previous_cursor != index && previous_cursor < children.len() {
                let previous = children[previous_cursor];
                if previous != child {
                    proof {
                        lemma_child_misses_parent(def@, i as int, previous_cursor as int);
                    }
                    let ghost before = inst.node_states@;
                    let ghost cpre = inst.host_calls@;
                    abort_subtree(
                        host,
                        inst,
                        bb,
                        messages,
                        env,
                        def,
                        previous,
                        String::from_str("reactive sequence restart"),
                        true,
                    );
                    proof {
                        lemma_calls_child(def@, node.0 as int, previous_cursor as int, calls0, cpre, inst.host_calls@);
                    }
                    proof {
                        lemma_child_frame(def@, i as int, previous_cursor as int, start, before, inst.node_states@);
                        if apart {
                            lemma_siblings_kept(def@, i as int, previous_cursor as int, before, inst.node_states@);
                        }
                    }
                }
            }
            let ghost after_abort = inst.node_states@;
            proof {
                if apart && !reactive && plain_action(def@, child.0 as int) && start[child.0 as int].status
                    == BehaviorTreeRunState::Running {
                    let call = HostCall::Action { node: child, starting: false, result: BehaviorStatus::Running };
                    assert(calls_ticked == cpre.push(call));
                    assert(calls_ticked[cpre.len() as int] == call);
                    assert(called_with(calls_ticked, calls0.len() as int, call));
                    assert(inst.host_calls@ == calls_ticked);
                }
                if apart {
                    assert forall|m: int|
                        0 <= m < children@.len() && !(reactive && m == previous_cursor) implies #[trigger] after_abort[children@[
                            m].0 as int] == ticked_states[children@[m].0 as int] by {
                        if reactive && previous_cursor != index && previous_cursor < children.len()
                            && children@[previous_cursor as int] != child {
                        } else {
                            assert(after_abort == ticked_states);
                        }
                    }
                }
            }
            let ghost before = inst.node_states@;
            inst.node_states[i].cursor = index;
            proof {
                lemma_self_frame(def@, i as int, before, inst.node_states@);
                lemma_frame_trans(def@, i as int, start, before, inst.node_states@);
            }
            let ghost before = inst.node_states@;
            let ghost path_before = path@;
            let r = settle(inst, messages, path, env, def, node, BehaviorStatus::Running);
            proof {
                if apart {
                    lemma_children_kept(def@, i as int, after_abort, before);
                    lemma_children_kept(def@, i as int, before, inst.node_states@);
                    let fin = inst.node_states@;
                    assert forall|m: int|
                        0 <= m < children@.len() && !(reactive && m == previous_cursor) implies #[trigger] fin[children@[
                            m].0 as int] == ticked_states[children@[m].0 as int] by {
                        assert(fin[children@[m].0 as int] == before[children@[m].0 as int]);
                        assert(before[children@[m].0 as int] == after_abort[children@[m].0 as int]);
                    }
                    assert forall|m: int|
                        s <= m < index && !(kind == SequenceKind::ReactiveSequence && m == previous_cursor) implies #[trigger] child_outcome(
                            def@,
                            i as int,
                            fin,
                            m,
                        ) == BehaviorStatus::Success by {
                        assert(child_outcome(def@, i as int, ticked_states, m) == BehaviorStatus::Success);
                    }
                    assert(fin[children@[index as int].0 as int] == ticked_states[children@[index as int].0 as int]);
                    assert(child_outcome(def@, i as int, fin, index as int) == BehaviorStatus::Running);
                    assert forall|m: int| 0 <= m < children@.len() && m < s implies #[trigger] fin[children@[m].0 as int]
                        == start[children@[m].0 as int] by {
                        assert(ticked_states[children@[m].0 as int] == start[children@[m].0 as int]);
                    }
                }
                lemma_self_frame(def@, i as int, before, inst.node_states@);
                lemma_frame_trans(def@, i as int, start, before, inst.node_states@);
                lemma_prefix_trans(old(path)@, path_before, path@);
                if reactive && previous_cursor < children.len() && previous_cursor != index
                    && children@[previous_cursor as int] != child {
                    let cp = children@[previous_cursor as int].0 as int;
                    lemma_child_misses_parent(def@, i as int, previous_cursor as int);
                    assert(forall|j: int|
                        0 <= j < inst.node_states@.len() && j != i ==> #[trigger] inst.node_states@[j]
                            == after_abort[j]);
                    assert forall|j: int|
                        0 <= j < def@.nodes.len() && #[trigger] reachable(g, cp, j) && after_abort[j].is_restarted()
                            implies inst.node_states@[j].is_restarted() by {
                        if j == i as int {
                            assert(reachable(g, cp, i as int));
                        }
                    }
                }
            }
            return r;
        }
        index = index + 1;
    }
    let ghost looped = inst.node_states@;
    inst.node_states[i].cursor = 0;
    proof {
        lemma_self_frame(def@, i as int, looped, inst.node_states@);
        lemma_frame_trans(def@, i as int, start, looped, inst.node_states@);
    }
    let ghost before = inst.node_states@;
    let r = finish_node(inst, messages, env, def, node, BehaviorStatus::Success);
    proof {
        lemma_frame_trans(def@, i as int, start, before, inst.node_states@);
        if apart {
            lemma_children_kept(def@, i as int, looped, before);
            lemma_children_kept(def@, i as int, before, inst.node_states@);
            let fin = inst.node_states@;
            assert forall|m: int| 0 <= m < children@.len() implies #[trigger] fin[children@[m].0 as int]
                == looped[children@[m].0 as int] by {
                assert(fin[children@[m].0 as int] == before[children@[m].0 as int]);
            }
            assert forall|m: int| s <= m < children@.len() implies #[trigger] child_outcome(def@, i as int, fin, m)
                == BehaviorStatus::Success by {
                assert(child_outcome(def@, i as int, looped, m) == BehaviorStatus::Success);
            }
            assert forall|m: int| 0 <= m < children@.len() && m < s implies #[trigger] fin[children@[m].0 as int]
                == start[children@[m].0 as int] by {
                assert(looped[children@[m].0 as int] == start[children@[m].0 as int]);
            }
        }
    }
    r
}

/// A reactive selector that lets higher-priority children preempt the
/// running one.
pub open spec fn preempts_lower(kind: SelectorKind) -> bool {
    match kind {
        SelectorKind::ReactiveSelector { abort_policy } => abort_policy == AbortPolicy::LowerPriority
            || abort_policy == AbortPolicy::Both,
        _ => false,
    }
}

/// Ticks a selector: children in order from the cursor (from the first
/// child when a reactive selector monitors lower priorities) until one
/// succeeds or runs. A child that is already running is ticked on, not
/// restarted. A reactive selector that monitors lower priorities aborts the
/// previously running child when an earlier one takes over, if that child is
/// still running.
#[verifier::rlimit(60)]
fn tick_selector<H: TreeHost>(
    host: &mut H,
    inst: &mut BehaviorTreeInstance,
    bb: &mut BehaviorTreeBlackboard,
    messages: &mut RuntimeMessageBuffer,
    path: &mut Vec<NodeId>,
    env: &TickEnv,
    def: &BehaviorTreeDefinition,
    node: NodeId,
    kind: SelectorKind,
) -> (r: BehaviorStatus)
    requires
        ready(def@, *old(inst)),
        node.0 < def@.nodes.len(),
        def@.nodes[node.0 as int].kind == NodeKindView::Selector(kind),
    ensures
        quiet(def@, node.0 as int) ==> nothing_aborted(*old(inst), *final(inst), *old(messages), *final(messages)),
        calls_within(def@, node.0 as int, old(inst).host_calls@, final(inst).host_calls@),
        finish_reported(*env, node, *final(messages), r),
        messages_kept(*env, *old(messages), *final(messages)),
        ticked(def@, node.0 as int, *old(inst), *final(inst), old(path)@, final(path)@, r),
        ({
            let p = old(inst).node_states@[node.0 as int].cursor as int;
            let children = def@.nodes[node.0 as int].children;
            let after = final(inst).node_states@;
            let k = after[node.0 as int].cursor as int;
            (preempts_lower(kind) && p < children.len()) ==> {
                &&& r == BehaviorStatus::Success ==> after[children[p].0 as int].status
                    != BehaviorTreeRunState::Running
                &&& (r == BehaviorStatus::Running && k != p && children[k] != children[p])
                    ==> after[children[p].0 as int].status != BehaviorTreeRunState::Running
            }
        }),
        branches_apart(def@, node.0 as int) ==> ({
            let n = node.0 as int;
            let p = old(inst).node_states@[n].cursor;
            let s = selector_start(kind, p);
            let c = def@.nodes[n].children;
            let len = c.len() as int;
            let after = final(inst).node_states@;
            let k = after[n].cursor as int;
            let preempted = preempts_lower(kind) && p < len && old(inst).node_states@[c[p as int].0 as int].status
                == BehaviorTreeRunState::Running;
            &&& children_before_kept(def@, n, old(inst).node_states@, after, s)
            &&& (!preempted && forall|m: int| 0 <= m < len ==> quiet(def@, (#[trigger] c[m]).0 as int)) ==> nothing_aborted(
                *old(inst),
                *final(inst),
                *old(messages),
                *final(messages),
            )
            &&& forall|m: int|
                0 <= m < len && m < s ==> !called_for(
                    final(inst).host_calls@,
                    old(inst).host_calls@.len() as int,
                    (#[trigger] c[m]).0 as int,
                )
            &&& r == BehaviorStatus::Failure ==> k == 0 && children_show(def@, n, after, s, len, BehaviorStatus::Failure)
            &&& r == BehaviorStatus::Success ==> exists|f: int|
                #[trigger] pass_stopped_at(def@, n, after, s, f, BehaviorStatus::Failure, BehaviorStatus::Success)
                    && k == (if kind == SelectorKind::SelectorWithMemory {
                    f
                } else {
                    0
                })
            &&& r == BehaviorStatus::Running ==> pass_stopped_at(
                def@,
                n,
                after,
                s,
                k,
                BehaviorStatus::Failure,
                BehaviorStatus::Running,
            )
            &&& forall|f: int|
                (preempted && f < p && #[trigger] pass_stopped_at(
                    def@,
                    n,
                    after,
                    s,
                    f,
                    BehaviorStatus::Failure,
                    r,
                ) && r != BehaviorStatus::Failure) ==> {
                    &&& forall|j: int|
                        0 <= j < def@.nodes.len() && #[trigger] reachable(graph(def@.nodes), c[p as int].0 as int, j)
                            ==> after[j].is_restarted()
                    &&& env.config.emit_lifecycle_messages ==> final(messages).branch_aborted@.len() > 0
                        && final(messages).branch_aborted@.last().node == c[p as int]
                        && final(messages).branch_aborted@.last().entity == env.entity
                    &&& def@.nodes[c[p as int].0 as int].kind is Action ==> called_with(
                        final(inst).host_calls@,
                        old(inst).host_calls@.len() as int,
                        HostCall::Abort { node: c[p as int] },
                    )
                }
            &&& (r == BehaviorStatus::Running && plain_action(def@, c[k].0 as int) && old(inst).node_states@[c[
                k].0 as int].status == BehaviorTreeRunState::Running) ==> called_with(
                final(inst).host_calls@,
                old(inst).host_calls@.len() as int,
                HostCall::Action { node: c[k], starting: false, result: BehaviorStatus::Running },
            )
        }),
    decreases node_rank(def@, node.0 as int), 0nat,
{
    proof {
        crate::definition::lemma_path_single(graph(def@.nodes), node.0 as int);
    }
    let ghost calls0 = inst.host_calls@;
    proof {
        lemma_calls_none(def@, node.0 as int, calls0);
    }
    let ghost g = graph(def@.nodes);
    proof {
        lemma_ranked(def@);
    }
    let i = node.0 as usize;
    let children = &def.nodes[i].children;
    assert(children@ == g[i as int]);
    let ghost start = inst.node_states@;
    enter(inst, messages, env, def, node);
    proof {
        lemma_self_frame(def@, i as int, start, inst.node_states@);
    }
    let previous_cursor = inst.node_states[i].cursor;
    let preempts = match kind {
        SelectorKind::ReactiveSelector { abort_policy } => abort_policy.monitors_lower_priority(),
        _ => false,
    };
    let mut index: usize = if preempts {
        0
    } else {
        previous_cursor
    };
    let ghost s = index as int;
    let ghost apart = branches_apart(def@, i as int);
    proof {
        if apart {
            lemma_children_kept(def@, i as int, start, inst.node_states@);
        }
    }
    while index < children.len()
        invariant
            quiet(def@, node.0 as int) ==> nothing_aborted(*old(inst), *inst, *old(messages), *messages),
            calls0 == old(inst).host_calls@,
            calls_within(def@, node.0 as int, calls0, inst.host_calls@),
            messages_kept(*env, *old(messages), *messages),
            g == graph(def@.nodes),
            children@ == g[i as int],
            children@ == def@.nodes[i as int].children,
            i == node.0,
            i < def@.nodes.len(),
            def@.nodes[i as int].kind == NodeKindView::Selector(kind),
            preempts == preempts_lower(kind),
            previous_cursor == old(inst).node_states@[i as int].cursor,
            ready(def@, *inst),
            inst.definition == old(inst).definition,
            ranked_by(g, some_rank(g)),
            start == old(inst).node_states@,
            outside_unchanged(def@, i as int, start, inst.node_states@),
            old(path)@.is_prefix_of(path@),
            s == selector_start(kind, previous_cursor),
            s <= index,
            apart == branches_apart(def@, i as int),
            apart ==> children_before_kept(def@, i as int, start, inst.node_states@, s),
            apart ==> children_show(def@, i as int, inst.node_states@, s, index as int, BehaviorStatus::Failure),
            apart && previous_cursor < children@.len() && index <= previous_cursor ==> inst.node_states@[children@[
                previous_cursor as int].0 as int] == start[children@[previous_cursor as int].0 as int],
            apart ==> forall|m: int|
                index <= m < children@.len() ==> #[trigger] inst.node_states@[children@[m].0 as int]
                    == start[children@[m].0 as int],
            (apart && !(preempts && previous_cursor < children@.len() && start[children@[previous_cursor as int].0 as int].status
                == BehaviorTreeRunState::Running) && forall|m: int| 0 <= m < children@.len() ==> quiet(def@, (#[trigger] children@[m]).0 as int))
                ==> nothing_aborted(*old(inst), *inst, *old(messages), *messages),
            apart ==> forall|m: int|
                0 <= m < children@.len() && m < s ==> !called_for(
                    inst.host_calls@,
                    calls0.len() as int,
                    (#[trigger] children@[m]).0 as int,
                ),
        decreases children@.len() - index,
    {
        let child = children[index];
        proof {
            lemma_child_misses_parent(def@, i as int, index as int);
        }
        let child_running = matches!(inst.node_states[child.0 as usize].status, BehaviorTreeRunState::Running);
        let restart_child = match kind {
            SelectorKind::ReactiveSelector { .. } => !child_running,
            SelectorKind::Selector => !child_running,
            SelectorKind::SelectorWithMemory => index == previous_cursor && !child_running,
        };
        if restart_child {
            let ghost before = inst.node_states@;
            reset_subtree(inst, def, child);
            proof {
                lemma_child_frame(def@, i as int, index as int, start, before, inst.node_states@);
                if apart {
                    lemma_siblings_kept(def@, i as int, index as int, before, inst.node_states@);
                    assert forall|m: int| s <= m < index implies #[trigger] child_outcome(def@, i as int, inst.node_states@, m)
                        == BehaviorStatus::Failure by {
                        assert(child_outcome(def@, i as int, before, m) == BehaviorStatus::Failure);
                    }
                }
            }
        }
        let ghost before = inst.node_states@;
        let ghost path_before = path@;
        let ghost ipre = *inst;
        let ghost mpre = *messages;
let ghost cpre = inst.host_calls@;
        let result = tick_node(host, inst, bb, messages, path, env, def, child);
        proof {
            lemma_calls_child(def@, node.0 as int, index as int, calls0, cpre, inst.host_calls@);
            if quiet(def@, node.0 as int) {
                lemma_quiet_child(def@, node.0 as int, index as int);
                lemma_nothing_aborted_trans(*old(inst), ipre, *inst, *old(messages), mpre, *messages);
            }
            if apart && !(preempts && previous_cursor < children@.len() && start[children@[previous_cursor as int].0 as int].status
                == BehaviorTreeRunState::Running) && forall|m: int| 0 <= m < children@.len() ==> quiet(def@, (#[trigger] children@[m]).0 as int) {
                assert(children@[index as int] == child);
                assert(quiet(def@, children@[index as int].0 as int));
                lemma_nothing_aborted_trans(*old(inst), ipre, *inst, *old(messages), mpre, *messages);
            }
            if apart {
                assert forall|m: int| 0 <= m < children@.len() && m < s implies !called_for(
                    inst.host_calls@,
                    calls0.len() as int,
                    (#[trigger] children@[m]).0 as int,
                ) by {
                    lemma_sibling_kept(def@, i as int, m, index as int, start, start);
                    assert(!reachable(g, children@[index as int].0 as int, children@[m].0 as int));
                    lemma_not_called(def@, child.0 as int, children@[m].0 as int, calls0.len() as int, cpre, inst.host_calls@);
                }
            }
        }
        proof {
            lemma_child_frame(def@, i as int, index as int, start, before, inst.node_states@);
            lemma_prefix_trans(old(path)@, path_before, path@);
            if apart {
                lemma_siblings_kept(def@, i as int, index as int, before, inst.node_states@);
                assert forall|m: int| s <= m < index implies #[trigger] child_outcome(def@, i as int, inst.node_states@, m)
                    == BehaviorStatus::Failure by {
                    assert(child_outcome(def@, i as int, before, m) == BehaviorStatus::Failure);
                }
                assert(child_outcome(def@, i as int, inst.node_states@, index as int) == result);
            }
        }
        let ghost ticked_states = inst.node_states@;
        let ghost calls_ticked = inst.host_calls@;
        proof {
            if apart && start[child.0 as int].status == BehaviorTreeRunState::Running {
                assert(children@[index as int] == child);
                assert(before[child.0 as int] == start[child.0 as int]);
            }
        }
        if result != BehaviorStatus::Failure {
            let ghost abort_calls_before = inst.host_calls@;
            let ghost msgs_before = *messages;
            let mut aborted = false;
            if preempts && previous_cursor != index && previous_cursor < children.len() {
                let previous = children[previous_cursor];
                proof {
                    lemma_child_misses_parent(def@, i as int, previous_cursor as int);
                }
                proof {
                    if apart && previous_cursor != index && children@[previous_cursor as int] != child {
                        if previous_cursor > index {
                            assert(inst.node_states@[previous.0 as int] == start[previous.0 as int]);
                        } else {
                            assert(child_outcome(def@, i as int, inst.node_states@, previous_cursor as int)
                                == BehaviorStatus::Failure);
                        }
                    }
                }
                if previous != child && matches!(
                    inst.node_states[previous.0 as usize].status,
                    BehaviorTreeRunState::Running
                ) {
                    let reason = if result == BehaviorStatus::Success {
                        String::from_str("lower priority branch aborted")
                    } else {
                        String::from_str("lower priority branch preempted")
                    };
                    let ghost before = inst.node_states@;
                    let ghost cpre = inst.host_calls@;
                    abort_subtree(host, inst, bb, messages, env, def, previous, reason, true);
                    proof {
                        lemma_calls_child(def@, node.0 as int, previous_cursor as int, calls0, cpre, inst.host_calls@);
                    }
                    aborted = true;
                    proof {
                        if apart && def@.nodes[previous.0 as int].kind is Action {
                            lemma_lone_abort(def@, previous, before, cpre, inst.host_calls@);
                            assert(inst.host_calls@[cpre.len() as int] == HostCall::Abort { node: previous });
                            assert(called_with(inst.host_calls@, calls0.len() as int, HostCall::Abort { node: previous }));
                        }
                        lemma_child_frame(def@, i as int, previous_cursor as int, start, before, inst.node_states@);
                        if apart {
                            lemma_siblings_kept(def@, i as int, previous_cursor as int, before, inst.node_states@);
                        }
                    }
                }
            }
            let ghost after_abort = inst.node_states@;
            let ghost msgs_after_abort = *messages;
            proof {
                if apart && result == BehaviorStatus::Running && plain_action(def@, child.0 as int)
                    && start[child.0 as int].status == BehaviorTreeRunState::Running {
                    let call = HostCall::Action { node: child, starting: false, result: BehaviorStatus::Running };
                    assert(calls_ticked == cpre.push(call));
                    assert(calls_ticked[cpre.len() as int] == call);
                    assert(called_with(calls_ticked, calls0.len() as int, call));
                    if aborted {
                        lemma_called_with_extends(calls_ticked, inst.host_calls@, calls0.len() as int, call);
                    }
                }
            }
            let cursor = if result == BehaviorStatus::Running || kind == SelectorKind::SelectorWithMemory {
                index
            } else {
                0
            };
            let ghost before = inst.node_states@;
            inst.node_states[i].cursor = cursor;
            proof {
                lemma_self_frame(def@, i as int, before, inst.node_states@);
                lemma_frame_trans(def@, i as int, start, before, inst.node_states@);
            }
            let ghost before_settle = inst.node_states@;
            let ghost path_before = path@;
            let r = settle(inst, messages, path, env, def, node, result);
            proof {
                lemma_self_frame(def@, i as int, before_settle, inst.node_states@);
                lemma_frame_trans(def@, i as int, start, before_settle, inst.node_states@);
                lemma_prefix_trans(old(path)@, path_before, path@);
                let fin = inst.node_states@;
                assert(forall|j: int| 0 <= j < fin.len() && j != i ==> #[trigger] fin[j] == after_abort[j]);
                if preempts && previous_cursor < children.len() {
                    let cp = children@[previous_cursor as int].0 as int;
                    lemma_child_misses_parent(def@, i as int, previous_cursor as int);
                    crate::definition::lemma_path_single(g, cp);
                    assert(fin[cp] == after_abort[cp]);
                    if previous_cursor == index || children@[previous_cursor as int] == child {
                        assert(after_abort == ticked_states);
                        assert(ticked_states[child.0 as int].status == run_state_of(result));
                    }
                }
                if apart {
                    lemma_children_kept(def@, i as int, after_abort, before_settle);
                    lemma_children_kept(def@, i as int, before_settle, fin);
                    assert forall|m: int|
                        0 <= m < children@.len() && !(aborted && m == previous_cursor) implies #[trigger] fin[children@[
                            m].0 as int] == ticked_states[children@[m].0 as int] by {
                        assert(fin[children@[m].0 as int] == before_settle[children@[m].0 as int]);
                        assert(before_settle[children@[m].0 as int] == after_abort[children@[m].0 as int]);
                        if !aborted {
                            assert(after_abort == ticked_states);
                        }
                    }
                    assert forall|m: int| s <= m < index implies #[trigger] child_outcome(def@, i as int, fin, m)
                        == BehaviorStatus::Failure by {
                        assert(child_outcome(def@, i as int, ticked_states, m) == BehaviorStatus::Failure);
                        if aborted && m == previous_cursor {
                            assert(false);
                        }
                    }
                    assert(fin[children@[index as int].0 as int] == ticked_states[children@[index as int].0 as int]);
                    assert(child_outcome(def@, i as int, fin, index as int) == result);
                    assert(pass_stopped_at(
                        def@,
                        i as int,
                        fin,
                        s,
                        index as int,
                        BehaviorStatus::Failure,
                        result,
                    ));
                    assert forall|m: int| 0 <= m < children@.len() && m < s implies #[trigger] fin[children@[m].0 as int]
                        == start[children@[m].0 as int] by {
                        assert(ticked_states[children@[m].0 as int] == start[children@[m].0 as int]);
                    }
                    if preempts && previous_cursor < children.len() && start[children@[
                        previous_cursor as int].0 as int].status == BehaviorTreeRunState::Running && index
                        < previous_cursor {
                        let cp = children@[previous_cursor as int].0 as int;
                        assert(ticked_states[cp] == start[cp]);
                        assert(aborted);
                        assert forall|f: int|
                            (f < previous_cursor && #[trigger] pass_stopped_at(
                                def@,
                                i as int,
                                fin,
                                s,
                                f,
                                BehaviorStatus::Failure,
                                result,
                            )) implies f == index by {
                            if f < index {
                                assert(child_outcome(def@, i as int, fin, f) == BehaviorStatus::Failure);
                            } else if f > index {
                                assert(child_outcome(def@, i as int, fin, index as int) == BehaviorStatus::Failure);
                            }
                        }
                        assert forall|j: int|
                            0 <= j < def@.nodes.len() && #[trigger] reachable(g, cp, j) implies fin[j].is_restarted() by {
                            if j == i as int {
                                assert(reachable(g, cp, i as int));
                            }
                            assert(fin[j] == after_abort[j]);
                        }
                    }
                }
            }
            return r;
        }
        proof {
            if apart && previous_cursor < children@.len() && index + 1 <= previous_cursor {
                assert(inst.node_states@[children@[previous_cursor as int].0 as int] == before[children@[
                    previous_cursor as int].0 as int]);
            }
        }
        index = index + 1;
    }
    let ghost looped = inst.node_states@;
    inst.node_states[i].cursor = 0;
    proof {
        lemma_self_frame(def@, i as int, looped, inst.node_states@);
        lemma_frame_trans(def@, i as int, start, looped, inst.node_states@);
    }
    let ghost before = inst.node_states@;
    let r = finish_node(inst, messages, env, def, node, BehaviorStatus::Failure);
    proof {
        lemma_frame_trans(def@, i as int, start, before, inst.node_states@);
        if apart {
            lemma_children_kept(def@, i as int, looped, before);
            lemma_children_kept(def@, i as int, before, inst.node_states@);
            let fin = inst.node_states@;
            assert forall|m: int| 0 <= m < children@.len() implies #[trigger] fin[children@[m].0 as int]
                == looped[children@[m].0 as int] by {
                assert(fin[children@[m].0 as int] == before[children@[m].0 as int]);
            }
            assert forall|m: int| s <= m < children@.len() implies #[trigger] child_outcome(def@, i as int, fin, m)
                == BehaviorStatus::Failure by {
                assert(child_outcome(def@, i as int, looped, m) == BehaviorStatus::Failure);
            }
            assert forall|m: int| 0 <= m < children@.len() && m < s implies #[trigger] fin[children@[m].0 as int]
                == start[children@[m].0 as int] by {
                assert(looped[children@[m].0 as int] == start[children@[m].0 as int]);
            }
        }
    }
    r
}

/// How a parallel node counts a child's slot: a finished child by its
/// result, a deactivated one as failed, any other as still running.
pub open spec fn parallel_outcome(s: BehaviorTreeRunState) -> BehaviorStatus {
    match s {
        BehaviorTreeRunState::Success => BehaviorStatus::Success,
        BehaviorTreeRunState::Failure | BehaviorTreeRunState::Deactivated => BehaviorStatus::Failure,
        _ => BehaviorStatus::Running,
    }
}

/// How many of the first `e` children of `node` count as `status` in
/// `states`.
pub open spec fn children_counted(
    def: DefinitionView,
    node: int,
    states: Seq<NodeRuntimeState>,
    e: int,
    status: BehaviorStatus,
) -> nat
    decreases e,
{
    if e <= 0 {
        0
    } else {
        children_counted(def, node, states, e - 1, status) + if parallel_outcome(
            states[def.nodes[node].children[e - 1].0 as int].status,
        ) == status {
            1nat
        } else {
            0nat
        }
    }
}

/// The count only looks at the counted children's slots.
proof fn lemma_counted_same(
    def: DefinitionView,
    node: int,
    a: Seq<NodeRuntimeState>,
    b: Seq<NodeRuntimeState>,
    e: int,
    status: BehaviorStatus,
)
    requires
        forall|m: int|
            0 <= m < e ==> parallel_outcome((#[trigger] b[def.nodes[node].children[m].0 as int]).status)
                == parallel_outcome(a[def.nodes[node].children[m].0 as int].status),
    ensures
        children_counted(def, node, b, e, status) == children_counted(def, node, a, e, status),
    decreases e,
{
    if e > 0 {
        lemma_counted_same(def, node, a, b, e - 1, status);
        assert(parallel_outcome(b[def.nodes[node].children[e - 1].0 as int].status) == parallel_outcome(
            a[def.nodes[node].children[e - 1].0 as int].status,
        ));
    }
}

/// A child still running is counted as running.
proof fn lemma_counted_positive(def: DefinitionView, node: int, states: Seq<NodeRuntimeState>, e: int, m: int)
    requires
        0 <= m < e,
        states[def.nodes[node].children[m].0 as int].status == BehaviorTreeRunState::Running,
    ensures
        children_counted(def, node, states, e, BehaviorStatus::Running) > 0,
    decreases e,
{
    if m < e - 1 {
        lemma_counted_positive(def, node, states, e - 1, m);
    }
}

/// Every counted child counts as exactly one result.
proof fn lemma_counted_total(def: DefinitionView, node: int, states: Seq<NodeRuntimeState>, e: int)
    requires
        e >= 0,
    ensures
        children_counted(def, node, states, e, BehaviorStatus::Success) + children_counted(
            def,
            node,
            states,
            e,
            BehaviorStatus::Failure,
        ) + children_counted(def, node, states, e, BehaviorStatus::Running) == e,
    decreases e,
{
    if e > 0 {
        lemma_counted_total(def, node, states, e - 1);
    }
}

/// Ticks a parallel node: on a fresh entry every child restarts; then every
/// child that has not finished is ticked, and
/// the results are counted against the policy's thresholds (success first).
/// When a threshold resolves the node and the policy says so, children still
/// running are aborted.
#[verifier::rlimit(80)]
#[verifier::spinoff_prover]
fn tick_parallel<H: TreeHost>(
    host: &mut H,
    inst: &mut BehaviorTreeInstance,
    bb: &mut BehaviorTreeBlackboard,
    messages: &mut RuntimeMessageBuffer,
    path: &mut Vec<NodeId>,
    env: &TickEnv,
    def: &BehaviorTreeDefinition,
    node: NodeId,
    policy: ParallelPolicy,
) -> (r: BehaviorStatus)
    requires
        ready(def@, *old(inst)),
        node.0 < def@.nodes.len(),
        def@.nodes[node.0 as int].kind == NodeKindView::Parallel(policy),
    ensures
        quiet(def@, node.0 as int) ==> nothing_aborted(*old(inst), *final(inst), *old(messages), *final(messages)),
        calls_within(def@, node.0 as int, old(inst).host_calls@, final(inst).host_calls@),
        finish_reported(*env, node, *final(messages), r),
        messages_kept(*env, *old(messages), *final(messages)),
        ticked(def@, node.0 as int, *old(inst), *final(inst), old(path)@, final(path)@, r),
        branches_apart(def@, node.0 as int) ==> ({
            let n = node.0 as int;
            let c = def@.nodes[n].children;
            let len = c.len() as int;
            let after = final(inst).node_states@;
            let succ = children_counted(def@, n, after, len, BehaviorStatus::Success);
            let fail = children_counted(def@, n, after, len, BehaviorStatus::Failure);
            &&& (r == BehaviorStatus::Success) == threshold_reached(policy.success, succ as int, len)
            &&& r == BehaviorStatus::Failure ==> threshold_reached(policy.failure, fail as int, len) || succ + fail == len
            &&& r == BehaviorStatus::Running ==> !threshold_reached(policy.failure, fail as int, len) && succ + fail < len
            &&& (r != BehaviorStatus::Running && policy.abort_running_siblings) ==> forall|m: int|
                0 <= m < len ==> after[(#[trigger] c[m]).0 as int].status != BehaviorTreeRunState::Running
            &&& (r != BehaviorStatus::Running && policy.abort_running_siblings) ==> forall|m: int|
                0 <= m < len && plain_action(def@, (#[trigger] c[m]).0 as int) && ran_running(
                    final(inst).host_calls@,
                    old(inst).host_calls@.len() as int,
                    c[m],
                ) ==> called_with(
                    final(inst).host_calls@,
                    old(inst).host_calls@.len() as int,
                    HostCall::Abort { node: c[m] },
                )
            &&& old(inst).node_states@[n].status != BehaviorTreeRunState::Running ==> forall|m: int|
                0 <= m < len && plain_action(def@, (#[trigger] c[m]).0 as int) ==> !ticked_on(
                    final(inst).host_calls@,
                    old(inst).host_calls@.len() as int,
                    c[m],
                )
        }),
    decreases node_rank(def@, node.0 as int), 0nat,
{
    proof {
        crate::definition::lemma_path_single(graph(def@.nodes), node.0 as int);
    }
    let ghost calls0 = inst.host_calls@;
    proof {
        lemma_calls_none(def@, node.0 as int, calls0);
    }
    let ghost g = graph(def@.nodes);
    proof {
        lemma_ranked(def@);
    }
    let i = node.0 as usize;
    let children = &def.nodes[i].children;
    assert(children@ == g[i as int]);
    let ghost start = inst.node_states@;
    let entering = !matches!(inst.node_states[i].status, BehaviorTreeRunState::Running);
    enter(inst, messages, env, def, node);
    proof {
        lemma_self_frame(def@, i as int, start, inst.node_states@);
    }
    let n = children.len();
    if entering {
        let mut k: usize = 0;
        while k < n
            invariant
            quiet(def@, node.0 as int) ==> nothing_aborted(*old(inst), *inst, *old(messages), *messages),
            calls0 == old(inst).host_calls@,
            calls_within(def@, node.0 as int, calls0, inst.host_calls@),
                g == graph(def@.nodes),
                children@ == g[i as int],
                n == children@.len(),
                i == node.0,
                i < def@.nodes.len(),
                k <= n,
                ready(def@, *inst),
                inst.definition == old(inst).definition,
                ranked_by(g, some_rank(g)),
                start == old(inst).node_states@,
                outside_unchanged(def@, i as int, start, inst.node_states@),
                inst.host_calls@ == calls0,
                children@ == def@.nodes[i as int].children,
                branches_apart(def@, i as int) ==> forall|m: int|
                    0 <= m < k ==> (#[trigger] inst.node_states@[children@[m].0 as int]).is_restarted(),
            decreases n - k,
        {
            let child = children[k];
            proof {
                assert(g[i as int][k as int] == child);
                lemma_child_misses_parent(def@, i as int, k as int);
            }
            let ghost before = inst.node_states@;
            reset_subtree(inst, def, child);
            proof {
                lemma_child_frame(def@, i as int, k as int, start, before, inst.node_states@);
                if branches_apart(def@, i as int) {
                    lemma_siblings_kept(def@, i as int, k as int, before, inst.node_states@);
                    crate::definition::lemma_path_single(g, child.0 as int);
                    assert forall|m: int| 0 <= m < k + 1 implies (#[trigger] inst.node_states@[children@[
                        m].0 as int]).is_restarted() by {
                        if m < k {
                            assert(inst.node_states@[children@[m].0 as int] == before[children@[m].0 as int]);
                        }
                    }
                }
            }
            k = k + 1;
        }
    }
    let mut successes: usize = 0;
    let mut failures: usize = 0;
    let mut running = false;
    let mut index: usize = 0;
    while index < n
        invariant
            quiet(def@, node.0 as int) ==> nothing_aborted(*old(inst), *inst, *old(messages), *messages),
            calls0 == old(inst).host_calls@,
            calls_within(def@, node.0 as int, calls0, inst.host_calls@),
        messages_kept(*env, *old(messages), *messages),
            g == graph(def@.nodes),
            children@ == g[i as int],
            children@ == def@.nodes[i as int].children,
            n == children@.len(),
            i == node.0,
            i < def@.nodes.len(),
            def@.nodes[i as int].kind == NodeKindView::Parallel(policy),
            index <= n,
            successes + failures <= index,
            ready(def@, *inst),
            inst.definition == old(inst).definition,
            ranked_by(g, some_rank(g)),
            start == old(inst).node_states@,
            outside_unchanged(def@, i as int, start, inst.node_states@),
            old(path)@.is_prefix_of(path@),
            branches_apart(def@, i as int) ==> {
                &&& successes == children_counted(def@, i as int, inst.node_states@, index as int, BehaviorStatus::Success)
                &&& failures == children_counted(def@, i as int, inst.node_states@, index as int, BehaviorStatus::Failure)
                &&& running == (children_counted(
                    def@,
                    i as int,
                    inst.node_states@,
                    index as int,
                    BehaviorStatus::Running,
                ) > 0)
                &&& forall|m: int| index <= m < n ==> !called_for(inst.host_calls@, calls0.len() as int, (#[trigger] children@[m]).0 as int)
                &&& forall|m: int|
                    0 <= m < index && plain_action(def@, (#[trigger] children@[m]).0 as int) && ran_running(
                        inst.host_calls@,
                        calls0.len() as int,
                        children@[m],
                    ) ==> inst.node_states@[children@[m].0 as int].status == BehaviorTreeRunState::Running
                &&& entering ==> forall|m: int|
                    0 <= m < index && plain_action(def@, (#[trigger] children@[m]).0 as int) ==> !ticked_on(
                        inst.host_calls@,
                        calls0.len() as int,
                        children@[m],
                    )
                &&& entering ==> forall|m: int|
                    index <= m < n ==> (#[trigger] inst.node_states@[children@[m].0 as int]).is_restarted()
            },
            entering == (start[i as int].status != BehaviorTreeRunState::Running),
        decreases n - index,
    {
        let child = children[index];
        proof {
            lemma_child_misses_parent(def@, i as int, index as int);
        }
        let ghost pre = inst.node_states@;
        let child_status = match inst.node_states[child.0 as usize].status {
            BehaviorTreeRunState::Success => BehaviorStatus::Success,
            BehaviorTreeRunState::Failure | BehaviorTreeRunState::Deactivated => BehaviorStatus::Failure,
            _ => {
                let ghost before = inst.node_states@;
                let ghost path_before = path@;
                let ghost ipre = *inst;
                let ghost mpre = *messages;
let ghost cpre = inst.host_calls@;
                let s = tick_node(host, inst, bb, messages, path, env, def, child);
                proof {
                    lemma_calls_child(def@, node.0 as int, index as int, calls0, cpre, inst.host_calls@);
                    if quiet(def@, node.0 as int) {
                        lemma_quiet_child(def@, node.0 as int, index as int);
                        lemma_nothing_aborted_trans(*old(inst), ipre, *inst, *old(messages), mpre, *messages);
                    }
                }
                proof {
                    lemma_child_frame(def@, i as int, index as int, start, before, inst.node_states@);
                    lemma_prefix_trans(old(path)@, path_before, path@);
                    if branches_apart(def@, i as int) {
                        lemma_siblings_kept(def@, i as int, index as int, before, inst.node_states@);
                        let after = inst.node_states@;
                        let calls = inst.host_calls@;
                        let base = calls0.len() as int;
                        assert(children@[index as int] == child);
                        assert(!called_for(cpre, base, child.0 as int));
                        assert forall|m: int| index + 1 <= m < n implies !called_for(calls, base, (#[trigger] children@[m]).0 as int) by {
                            lemma_sibling_kept(def@, i as int, m, index as int, start, start);
                            lemma_not_called(def@, child.0 as int, children@[m].0 as int, base, cpre, calls);
                        }
                        assert forall|m: int|
                            0 <= m < index && plain_action(def@, (#[trigger] children@[m]).0 as int) && ran_running(
                                calls,
                                base,
                                children@[m],
                            ) implies after[children@[m].0 as int].status == BehaviorTreeRunState::Running by {
                            lemma_sibling_kept(def@, i as int, m, index as int, start, start);
                            let x = children@[m];
                            let c1 = HostCall::Action { node: x, starting: true, result: BehaviorStatus::Running };
                            let c2 = HostCall::Action { node: x, starting: false, result: BehaviorStatus::Running };
                            if called_with(calls, base, c1) {
                                lemma_call_elsewhere(def@, child.0 as int, cpre, calls, base, c1);
                            }
                            if called_with(calls, base, c2) {
                                lemma_call_elsewhere(def@, child.0 as int, cpre, calls, base, c2);
                            }
                            assert(after[x.0 as int] == before[x.0 as int]);
                        }
                        if plain_action(def@, child.0 as int) && ran_running(calls, base, child) {
                            let x = child;
                            let c1 = HostCall::Action { node: x, starting: true, result: BehaviorStatus::Running };
                            let c2 = HostCall::Action { node: x, starting: false, result: BehaviorStatus::Running };
                            if calls == cpre {
                                if called_with(cpre, base, c1) {
                                    let j = choose|j: int| base <= j < cpre.len() && #[trigger] cpre[j] == c1;
                                    assert(call_node(cpre[j]).0 == child.0);
                                }
                                if called_with(cpre, base, c2) {
                                    let j = choose|j: int| base <= j < cpre.len() && #[trigger] cpre[j] == c2;
                                    assert(call_node(cpre[j]).0 == child.0);
                                }
                            } else {
                                assert(calls.drop_last() =~= cpre);
                                if called_with(calls, base, c1) {
                                    let j = choose|j: int| base <= j < calls.len() && #[trigger] calls[j] == c1;
                                    if j < cpre.len() {
                                        assert(cpre[j] == calls[j]);
                                        assert(call_node(cpre[j]).0 == child.0);
                                    }
                                }
                                if called_with(calls, base, c2) {
                                    let j = choose|j: int| base <= j < calls.len() && #[trigger] calls[j] == c2;
                                    if j < cpre.len() {
                                        assert(cpre[j] == calls[j]);
                                        assert(call_node(cpre[j]).0 == child.0);
                                    }
                                }
                                assert(s == BehaviorStatus::Running);
                            }
                        }
                        if entering {
                            assert forall|m: int|
                                0 <= m < index && plain_action(def@, (#[trigger] children@[m]).0 as int) implies !ticked_on(
                                    calls,
                                    base,
                                    children@[m],
                                ) by {
                                lemma_sibling_kept(def@, i as int, m, index as int, start, start);
                                if ticked_on(calls, base, children@[m]) {
                                    lemma_tick_elsewhere(def@, child.0 as int, cpre, calls, base, children@[m]);
                                }
                            }
                            if plain_action(def@, child.0 as int) && ticked_on(calls, base, child) {
                                assert(before[child.0 as int].is_restarted());
                                let j = choose|j: int| base <= j < calls.len() && #[trigger] is_tick_call(calls[j], child);
                                if j < cpre.len() {
                                    assert(cpre =~= calls.subrange(0, cpre.len() as int));
                                    assert(cpre[j] == calls.subrange(0, cpre.len() as int)[j]);
                                    assert(call_node(cpre[j]).0 == child.0);
                                }
                            }
                            assert forall|m: int| index + 1 <= m < n implies (#[trigger] after[children@[m].0 as int]).is_restarted() by {
                                assert(after[children@[m].0 as int] == before[children@[m].0 as int]);
                            }
                        }
                    }
                }
                s
            },
        };
        proof {
            if branches_apart(def@, i as int) {
                let now = inst.node_states@;
                assert(parallel_outcome(now[child.0 as int].status) == child_status);
                assert forall|m: int| 0 <= m < index implies parallel_outcome(
                    (#[trigger] now[def@.nodes[i as int].children[m].0 as int]).status,
                ) == parallel_outcome(pre[def@.nodes[i as int].children[m].0 as int].status) by {
                    assert(now[children@[m].0 as int] == pre[children@[m].0 as int]);
                }
                lemma_counted_same(def@, i as int, pre, now, index as int, BehaviorStatus::Success);
                lemma_counted_same(def@, i as int, pre, now, index as int, BehaviorStatus::Failure);
                lemma_counted_same(def@, i as int, pre, now, index as int, BehaviorStatus::Running);
                assert(children@[index as int] == child);
            }
        }
        if child_status == BehaviorStatus::Success {
            successes = successes + 1;
        } else if child_status == BehaviorStatus::Failure {
            failures = failures + 1;
        } else {
            running = true;
        }
        index = index + 1;
    }
    let ghost looped = inst.node_states@;
    let ghost looped_calls = inst.host_calls@;
    proof {
        if branches_apart(def@, i as int) {
            lemma_counted_total(def@, i as int, looped, n as int);
        }
    }
    let succeeded = threshold_met(policy.success, successes, n);
    if succeeded || threshold_met(policy.failure, failures, n) {
        if policy.abort_running_siblings {
            let ghost before = inst.node_states@;
            let ghost cpre = inst.host_calls@;
            abort_running_children(
                host,
                inst,
                bb,
                messages,
                env,
                def,
                node,
                if succeeded {
                    "parallel success threshold reached"
                } else {
                    "parallel failure threshold reached"
                },
            );
            proof {
                lemma_calls_step(def@, node.0 as int, node.0 as int, calls0, cpre, inst.host_calls@);
            }
            proof {
                lemma_frame_trans(def@, i as int, start, before, inst.node_states@);
                if branches_apart(def@, i as int) {
                    let now = inst.node_states@;
                    assert forall|m: int| 0 <= m < n implies parallel_outcome(
                        (#[trigger] now[def@.nodes[i as int].children[m].0 as int]).status,
                    ) == parallel_outcome(looped[def@.nodes[i as int].children[m].0 as int].status) by {
                        assert(aborted_if_running(
                            looped[def@.nodes[i as int].children[m].0 as int],
                            now[def@.nodes[i as int].children[m].0 as int],
                        ));
                    }
                    lemma_counted_same(def@, i as int, looped, now, n as int, BehaviorStatus::Success);
                    lemma_counted_same(def@, i as int, looped, now, n as int, BehaviorStatus::Failure);
                }
            }
        }
        let ghost before = inst.node_states@;
        let r = finish_node(
            inst,
            messages,
            env,
            def,
            node,
            if succeeded {
                BehaviorStatus::Success
            } else {
                BehaviorStatus::Failure
            },
        );
        proof {
            lemma_frame_trans(def@, i as int, start, before, inst.node_states@);
            if branches_apart(def@, i as int) {
                lemma_children_kept(def@, i as int, before, inst.node_states@);
                let now = inst.node_states@;
                assert forall|m: int| 0 <= m < n implies parallel_outcome(
                    (#[trigger] now[def@.nodes[i as int].children[m].0 as int]).status,
                ) == parallel_outcome(before[def@.nodes[i as int].children[m].0 as int].status) by {
                    assert(now[def@.nodes[i as int].children[m].0 as int] == before[def@.nodes[i as int].children[m].0 as int]);
                }
                lemma_counted_same(def@, i as int, before, now, n as int, BehaviorStatus::Success);
                lemma_counted_same(def@, i as int, before, now, n as int, BehaviorStatus::Failure);
                if policy.abort_running_siblings {
                    assert forall|m: int| 0 <= m < n implies now[(#[trigger] children@[m]).0 as int].status
                        != BehaviorTreeRunState::Running by {
                        assert(now[children@[m].0 as int] == before[children@[m].0 as int]);
                    }
                }
                let calls = inst.host_calls@;
                let base = calls0.len() as int;
                assert(looped_calls.is_prefix_of(calls)) by {
                    if !policy.abort_running_siblings {
                        assert(looped_calls =~= calls.subrange(0, looped_calls.len() as int));
                    }
                }
                assert forall|m: int| 0 <= m < n implies ({
                    &&& ran_running(calls, base, children@[m]) ==> ran_running(looped_calls, base, children@[m])
                    &&& ticked_on(calls, base, children@[m]) ==> ticked_on(looped_calls, base, #[trigger] children@[m])
                }) by {
                    lemma_aborts_keep(looped_calls, calls, base, children@[m]);
                }
                if policy.abort_running_siblings {
                    assert forall|m: int|
                        0 <= m < n && plain_action(def@, (#[trigger] children@[m]).0 as int) && ran_running(
                            calls,
                            base,
                            children@[m],
                        ) implies called_with(calls, base, HostCall::Abort { node: children@[m] }) by {
                        assert(ran_running(looped_calls, base, children@[m]));
                        assert(looped[children@[m].0 as int].status == BehaviorTreeRunState::Running);
                        assert(called_with(calls, looped_calls.len() as int, HostCall::Abort { node: children@[m] }));
                        let j = choose|j: int| looped_calls.len() <= j < calls.len() && #[trigger] calls[j] == HostCall::Abort { node: children@[m] };
                        assert(base <= j);
                    }
                }
            }
        }
        return r;
    }
    let ghost before = inst.node_states@;
    let ghost path_before = path@;
    let r = settle(
        inst,
        messages,
        path,
        env,
        def,
        node,
        if running {
            BehaviorStatus::Running
        } else {
            BehaviorStatus::Failure
        },
    );
    proof {
        lemma_self_frame(def@, i as int, before, inst.node_states@);
        lemma_frame_trans(def@, i as int, start, before, inst.node_states@);
        lemma_prefix_trans(old(path)@, path_before, path@);
        if branches_apart(def@, i as int) {
            lemma_children_kept(def@, i as int, before, inst.node_states@);
            let now = inst.node_states@;
            assert forall|m: int| 0 <= m < n implies parallel_outcome(
                (#[trigger] now[def@.nodes[i as int].children[m].0 as int]).status,
            ) == parallel_outcome(before[def@.nodes[i as int].children[m].0 as int].status) by {
                assert(now[def@.nodes[i as int].children[m].0 as int] == before[def@.nodes[i as int].children[m].0 as int]);
            }
            lemma_counted_same(def@, i as int, before, now, n as int, BehaviorStatus::Success);
            lemma_counted_same(def@, i as int, before, now, n as int, BehaviorStatus::Failure);
            if !running && policy.abort_running_siblings {
                assert forall|m: int| 0 <= m < n implies now[(#[trigger] children@[m]).0 as int].status
                    != BehaviorTreeRunState::Running by {
                    assert(now[children@[m].0 as int] == before[children@[m].0 as int]);
                    if before[children@[m].0 as int].status == BehaviorTreeRunState::Running {
                        lemma_counted_positive(def@, i as int, before, n as int, m);
                    }
                }
                assert forall|m: int|
                    0 <= m < n && plain_action(def@, (#[trigger] children@[m]).0 as int) && ran_running(
                        inst.host_calls@,
                        calls0.len() as int,
                        children@[m],
                    ) implies called_with(inst.host_calls@, calls0.len() as int, HostCall::Abort { node: children@[m] }) by {
                    assert(before[children@[m].0 as int].status == BehaviorTreeRunState::Running);
                    lemma_counted_positive(def@, i as int, before, n as int, m);
                }
            }
        }
    }
    r
}

/// Ticks an inverter, force-success, force-failure or succeeder: the child's
/// result, mapped.
fn tick_mapping<H: TreeHost>(
    host: &mut H,
    inst: &mut BehaviorTreeInstance,
    bb: &mut BehaviorTreeBlackboard,
    messages: &mut RuntimeMessageBuffer,
    path: &mut Vec<NodeId>,
    env: &TickEnv,
    def: &BehaviorTreeDefinition,
    node: NodeId,
    d: &DecoratorKind,
) -> (r: BehaviorStatus)
    requires
        ready(def@, *old(inst)),
        node.0 < def@.nodes.len(),
        def@.nodes[node.0 as int].children.len() == 1,
    ensures
        plain_action(def@, only_child(def@, node.0 as int)) ==> at_most_one_run(
            old(inst).host_calls@,
            final(inst).host_calls@,
            def@.nodes[node.0 as int].children[0],
        ),
        quiet(def@, node.0 as int) ==> nothing_aborted(*old(inst), *final(inst), *old(messages), *final(messages)),
        calls_within(def@, node.0 as int, old(inst).host_calls@, final(inst).host_calls@),
        finish_reported(*env, node, *final(messages), r),
        messages_kept(*env, *old(messages), *final(messages)),
        ticked(def@, node.0 as int, *old(inst), *final(inst), old(path)@, final(path)@, r),
        r == mapped_status(d@, outcome_of(final(inst).node_states@[only_child(def@, node.0 as int)].status)),
    decreases node_rank(def@, node.0 as int), 0nat,
{
    proof {
        crate::definition::lemma_path_single(graph(def@.nodes), node.0 as int);
    }
    let ghost calls0 = inst.host_calls@;
    proof {
        lemma_calls_none(def@, node.0 as int, calls0);
    }
    let i = node.0 as usize;
    let child = def.nodes[i].children[0];
    assert(def@.nodes[i as int].children[0] == child);
    proof {
        lemma_child_misses_parent(def@, i as int, 0);
    }
    let ghost start = inst.node_states@;
    enter(inst, messages, env, def, node);
    proof {
        lemma_self_frame(def@, i as int, start, inst.node_states@);
    }
    let ghost before = inst.node_states@;
    let ghost path_before = path@;
    let ghost ipre = *inst;
    let ghost mpre = *messages;
let ghost cpre = inst.host_calls@;
    let cr = tick_node(host, inst, bb, messages, path, env, def, child);
    proof {
        lemma_calls_child(def@, node.0 as int, 0 as int, calls0, cpre, inst.host_calls@);
        if quiet(def@, node.0 as int) {
            lemma_quiet_child(def@, node.0 as int, 0 as int);
            lemma_nothing_aborted_trans(*old(inst), ipre, *inst, *old(messages), mpre, *messages);
        }
    }
    proof {
        lemma_child_frame(def@, i as int, 0, start, before, inst.node_states@);
        lemma_prefix_trans(old(path)@, path_before, path@);
    }
    let ghost before = inst.node_states@;
    let ghost path_before = path@;
    let r = settle(inst, messages, path, env, def, node, map_status(d, cr));
    proof {
        lemma_self_frame(def@, i as int, before, inst.node_states@);
        lemma_frame_trans(def@, i as int, start, before, inst.node_states@);
        lemma_prefix_trans(old(path)@, path_before, path@);
        assert(inst.node_states@[child.0 as int] == before[child.0 as int]);
    }
    r
}

/// Ticks a timeout: the child's result, but a child still running when the
/// timeout has elapsed since the decorator was entered is aborted and the
/// decorator fails.
fn tick_timeout<H: TreeHost>(
    host: &mut H,
    inst: &mut BehaviorTreeInstance,
    bb: &mut BehaviorTreeBlackboard,
    messages: &mut RuntimeMessageBuffer,
    path: &mut Vec<NodeId>,
    env: &TickEnv,
    def: &BehaviorTreeDefinition,
    node: NodeId,
    micros: i64,
) -> (r: BehaviorStatus)
    requires
        ready(def@, *old(inst)),
        node.0 < def@.nodes.len(),
        def@.nodes[node.0 as int].children.len() == 1,
    ensures
        calls_within(def@, node.0 as int, old(inst).host_calls@, final(inst).host_calls@),
        finish_reported(*env, node, *final(messages), r),
        messages_kept(*env, *old(messages), *final(messages)),
        ticked(def@, node.0 as int, *old(inst), *final(inst), old(path)@, final(path)@, r),
        r == BehaviorStatus::Running ==> env.now - final(inst).node_states@[node.0 as int].entered_at < micros,
        r == (if outcome_of(final(inst).node_states@[only_child(def@, node.0 as int)].status) != BehaviorStatus::Running {
            outcome_of(final(inst).node_states@[only_child(def@, node.0 as int)].status)
        } else if env.now - final(inst).node_states@[node.0 as int].entered_at >= micros {
            BehaviorStatus::Failure
        } else {
            BehaviorStatus::Running
        }),
        (r == BehaviorStatus::Failure && outcome_of(final(inst).node_states@[only_child(def@, node.0 as int)].status) == BehaviorStatus::Running && plain_action(
            def@,
            only_child(def@, node.0 as int),
        )) ==> final(inst).host_calls@ == old(inst).host_calls@.push(
            HostCall::Action {
                node: def@.nodes[node.0 as int].children[0],
                starting: restarts(old(inst).node_states@[only_child(def@, node.0 as int)].status),
                result: BehaviorStatus::Running,
            },
        ).push(HostCall::Abort { node: def@.nodes[node.0 as int].children[0] }),
        (r == BehaviorStatus::Failure && outcome_of(final(inst).node_states@[only_child(def@, node.0 as int)].status) == BehaviorStatus::Running) ==> forall|j: int|
            0 <= j < def@.nodes.len() && #[trigger] reachable(graph(def@.nodes), only_child(def@, node.0 as int), j)
                ==> final(inst).node_states@[j].is_restarted(),
    decreases node_rank(def@, node.0 as int), 0nat,
{
    let ghost calls0 = inst.host_calls@;
    proof {
        lemma_calls_none(def@, node.0 as int, calls0);
    }
    let i = node.0 as usize;
    let child = def.nodes[i].children[0];
    assert(def@.nodes[i as int].children[0] == child);
    proof {
        lemma_child_misses_parent(def@, i as int, 0);
    }
    let ghost start = inst.node_states@;
    enter(inst, messages, env, def, node);
    proof {
        lemma_self_frame(def@, i as int, start, inst.node_states@);
    }
    let ghost before = inst.node_states@;
    let ghost path_before = path@;
    let ghost cpre = inst.host_calls@;
    let cr = tick_node(host, inst, bb, messages, path, env, def, child);
    proof {
        lemma_calls_child(def@, node.0 as int, 0 as int, calls0, cpre, inst.host_calls@);
    }
    proof {
        lemma_child_frame(def@, i as int, 0, start, before, inst.node_states@);
        lemma_prefix_trans(old(path)@, path_before, path@);
    }
    if cr == BehaviorStatus::Running && env.now as i128 - inst.node_states[i].entered_at as i128
        >= micros as i128 {
        let ghost before = inst.node_states@;
        let ghost cpre = inst.host_calls@;
        abort_subtree(host, inst, bb, messages, env, def, child, String::from_str("timeout"), true);
        proof {
            lemma_calls_child(def@, node.0 as int, 0 as int, calls0, cpre, inst.host_calls@);
        }
        proof {
            lemma_child_frame(def@, i as int, 0, start, before, inst.node_states@);
            crate::definition::lemma_path_single(graph(def@.nodes), child.0 as int);
            assert(inst.node_states@[i as int] == before[i as int]);
            if def@.nodes[child.0 as int].kind is Action {
                lemma_lone_abort(def@, child, before, cpre, inst.host_calls@);
            }
        }
        let ghost before = inst.node_states@;
        let r = finish_node(inst, messages, env, def, node, BehaviorStatus::Failure);
        proof {
            lemma_frame_trans(def@, i as int, start, before, inst.node_states@);
            assert(inst.node_states@[child.0 as int] == before[child.0 as int]);
            assert forall|j: int|
                0 <= j < def@.nodes.len() && #[trigger] reachable(graph(def@.nodes), child.0 as int, j)
                    implies inst.node_states@[j].is_restarted() by {
                if j == i as int {
                    assert(reachable(graph(def@.nodes), child.0 as int, i as int));
                }
                assert(inst.node_states@[j] == before[j]);
            }
        }
        r
    } else {
        let ghost before = inst.node_states@;
        let ghost path_before = path@;
        let r = settle(inst, messages, path, env, def, node, cr);
        proof {
            lemma_self_frame(def@, i as int, before, inst.node_states@);
            lemma_frame_trans(def@, i as int, start, before, inst.node_states@);
            lemma_prefix_trans(old(path)@, path_before, path@);
            assert(inst.node_states@[child.0 as int] == before[child.0 as int]);
        }
        r
    }
}

/// Ticks a cooldown: while the cooldown runs and the child is not running,
/// the decorator fails without entering the child; once the child finishes,
/// a new cooldown starts.
fn tick_cooldown<H: TreeHost>(
    host: &mut H,
    inst: &mut BehaviorTreeInstance,
    bb: &mut BehaviorTreeBlackboard,
    messages: &mut RuntimeMessageBuffer,
    path: &mut Vec<NodeId>,
    env: &TickEnv,
    def: &BehaviorTreeDefinition,
    node: NodeId,
    micros: i64,
) -> (r: BehaviorStatus)
    requires
        ready(def@, *old(inst)),
        node.0 < def@.nodes.len(),
        def@.nodes[node.0 as int].children.len() == 1,
    ensures
        plain_action(def@, only_child(def@, node.0 as int)) ==> at_most_one_run(
            old(inst).host_calls@,
            final(inst).host_calls@,
            def@.nodes[node.0 as int].children[0],
        ),
        quiet(def@, node.0 as int) ==> nothing_aborted(*old(inst), *final(inst), *old(messages), *final(messages)),
        calls_within(def@, node.0 as int, old(inst).host_calls@, final(inst).host_calls@),
        finish_reported(*env, node, *final(messages), r),
        messages_kept(*env, *old(messages), *final(messages)),
        ticked(def@, node.0 as int, *old(inst), *final(inst), old(path)@, final(path)@, r),
        ({
            let blocked = env.now < old(inst).node_states@[node.0 as int].cooldown_until
                && old(inst).node_states@[only_child(def@, node.0 as int)].status != BehaviorTreeRunState::Running;
            &&& blocked ==> r == BehaviorStatus::Failure && final(inst).host_calls == old(inst).host_calls && forall|j: int|
                0 <= j < old(inst).node_states@.len() && j != node.0 ==> #[trigger] final(inst).node_states@[j]
                    == old(inst).node_states@[j]
            &&& (!blocked && r != BehaviorStatus::Running) ==> final(inst).node_states@[node.0 as int].cooldown_until
                == clamp_time(env.now + micros)
            &&& !blocked ==> r == outcome_of(final(inst).node_states@[only_child(def@, node.0 as int)].status)
        }),
    decreases node_rank(def@, node.0 as int), 0nat,
{
    proof {
        crate::definition::lemma_path_single(graph(def@.nodes), node.0 as int);
    }
    let ghost calls0 = inst.host_calls@;
    proof {
        lemma_calls_none(def@, node.0 as int, calls0);
    }
    let i = node.0 as usize;
    let child = def.nodes[i].children[0];
    assert(def@.nodes[i as int].children[0] == child);
    proof {
        lemma_child_misses_parent(def@, i as int, 0);
    }
    let ghost start = inst.node_states@;
    enter(inst, messages, env, def, node);
    proof {
        lemma_self_frame(def@, i as int, start, inst.node_states@);
    }
    if env.now < inst.node_states[i].cooldown_until && !matches!(
        inst.node_states[child.0 as usize].status,
        BehaviorTreeRunState::Running
    ) {
        let ghost before = inst.node_states@;
        let r = finish_node(inst, messages, env, def, node, BehaviorStatus::Failure);
        proof {
            lemma_frame_trans(def@, i as int, start, before, inst.node_states@);
        }
        return r;
    }
    let ghost before = inst.node_states@;
    let ghost path_before = path@;
    let ghost ipre = *inst;
    let ghost mpre = *messages;
let ghost cpre = inst.host_calls@;
    let cr = tick_node(host, inst, bb, messages, path, env, def, child);
    proof {
        lemma_calls_child(def@, node.0 as int, 0 as int, calls0, cpre, inst.host_calls@);
        if quiet(def@, node.0 as int) {
            lemma_quiet_child(def@, node.0 as int, 0 as int);
            lemma_nothing_aborted_trans(*old(inst), ipre, *inst, *old(messages), mpre, *messages);
        }
    }
    proof {
        lemma_child_frame(def@, i as int, 0, start, before, inst.node_states@);
        lemma_prefix_trans(old(path)@, path_before, path@);
    }
    if cr != BehaviorStatus::Running {
        let ghost before = inst.node_states@;
        inst.node_states[i].cooldown_until = time_after(env.now, micros);
        proof {
            lemma_self_frame(def@, i as int, before, inst.node_states@);
            lemma_frame_trans(def@, i as int, start, before, inst.node_states@);
        }
    }
    let ghost before = inst.node_states@;
    let ghost path_before = path@;
    let r = settle(inst, messages, path, env, def, node, cr);
    proof {
        lemma_self_frame(def@, i as int, before, inst.node_states@);
        lemma_frame_trans(def@, i as int, start, before, inst.node_states@);
        lemma_prefix_trans(old(path)@, path_before, path@);
        assert(inst.node_states@[child.0 as int] == before[child.0 as int]);
    }
    r
}

/// Ticks a retry, repeater, until-success or until-failure decorator: a
/// running child keeps it running; a finished child result goes through
/// `repeat_decision`, which either finishes the decorator (and clears its
/// counter) or counts one more round, resets the child and keeps running.
fn tick_repeating<H: TreeHost>(
    host: &mut H,
    inst: &mut BehaviorTreeInstance,
    bb: &mut BehaviorTreeBlackboard,
    messages: &mut RuntimeMessageBuffer,
    path: &mut Vec<NodeId>,
    env: &TickEnv,
    def: &BehaviorTreeDefinition,
    node: NodeId,
    d: &DecoratorKind,
) -> (r: BehaviorStatus)
    requires
        ready(def@, *old(inst)),
        node.0 < def@.nodes.len(),
        def@.nodes[node.0 as int].children.len() == 1,
    ensures
        plain_action(def@, only_child(def@, node.0 as int)) ==> at_most_one_run(
            old(inst).host_calls@,
            final(inst).host_calls@,
            def@.nodes[node.0 as int].children[0],
        ),
        quiet(def@, node.0 as int) ==> nothing_aborted(*old(inst), *final(inst), *old(messages), *final(messages)),
        calls_within(def@, node.0 as int, old(inst).host_calls@, final(inst).host_calls@),
        finish_reported(*env, node, *final(messages), r),
        messages_kept(*env, *old(messages), *final(messages)),
        ticked(def@, node.0 as int, *old(inst), *final(inst), old(path)@, final(path)@, r),
        ({
            let counter = old(inst).node_states@[node.0 as int].counter;
            let after = final(inst).node_states@;
            let child = only_child(def@, node.0 as int);
            &&& r != BehaviorStatus::Running ==> after[node.0 as int].counter == 0 && outcome_of(after[child].status)
                != BehaviorStatus::Running && repeat_outcome(d@, counter, outcome_of(after[child].status)) == Some(r)
            &&& r == BehaviorStatus::Running ==> after[child].status == BehaviorTreeRunState::Running || (
            after[child].is_restarted() && (counter < u32::MAX ==> after[node.0 as int].counter == counter + 1)
                && exists|cr: BehaviorStatus|
                cr != BehaviorStatus::Running && #[trigger] repeat_outcome(d@, counter, cr) == None::<BehaviorStatus>)
        }),
    decreases node_rank(def@, node.0 as int), 0nat,
{
    proof {
        crate::definition::lemma_path_single(graph(def@.nodes), node.0 as int);
    }
    let ghost calls0 = inst.host_calls@;
    proof {
        lemma_calls_none(def@, node.0 as int, calls0);
    }
    let i = node.0 as usize;
    let child = def.nodes[i].children[0];
    assert(def@.nodes[i as int].children[0] == child);
    proof {
        lemma_child_misses_parent(def@, i as int, 0);
        crate::definition::lemma_path_single(graph(def@.nodes), child.0 as int);
    }
    let ghost start = inst.node_states@;
    enter(inst, messages, env, def, node);
    proof {
        lemma_self_frame(def@, i as int, start, inst.node_states@);
    }
    let ghost before = inst.node_states@;
    let ghost path_before = path@;
    let ghost ipre = *inst;
    let ghost mpre = *messages;
let ghost cpre = inst.host_calls@;
    let cr = tick_node(host, inst, bb, messages, path, env, def, child);
    proof {
        lemma_calls_child(def@, node.0 as int, 0 as int, calls0, cpre, inst.host_calls@);
        if quiet(def@, node.0 as int) {
            lemma_quiet_child(def@, node.0 as int, 0 as int);
            lemma_nothing_aborted_trans(*old(inst), ipre, *inst, *old(messages), mpre, *messages);
        }
    }
    proof {
        lemma_child_frame(def@, i as int, 0, start, before, inst.node_states@);
        lemma_prefix_trans(old(path)@, path_before, path@);
        assert(inst.node_states@[i as int] == before[i as int]);
    }
    if cr == BehaviorStatus::Running {
        let ghost before = inst.node_states@;
        let ghost path_before = path@;
        let r = settle(inst, messages, path, env, def, node, cr);
        proof {
            lemma_self_frame(def@, i as int, before, inst.node_states@);
            lemma_frame_trans(def@, i as int, start, before, inst.node_states@);
            lemma_prefix_trans(old(path)@, path_before, path@);
            assert(inst.node_states@[child.0 as int] == before[child.0 as int]);
        }
        return r;
    }
    let counter = inst.node_states[i].counter;
    match repeat_decision(d, counter, cr) {
        Some(status) => {
            let ghost before = inst.node_states@;
            inst.node_states[i].counter = 0;
            proof {
                lemma_self_frame(def@, i as int, before, inst.node_states@);
                lemma_frame_trans(def@, i as int, start, before, inst.node_states@);
            }
            let ghost before = inst.node_states@;
            let r = finish_node(inst, messages, env, def, node, status);
            proof {
                lemma_frame_trans(def@, i as int, start, before, inst.node_states@);
            }
            r
        },
        None => {
            let ghost before = inst.node_states@;
            inst.node_states[i].counter = counter.saturating_add(1);
            proof {
                lemma_self_frame(def@, i as int, before, inst.node_states@);
                lemma_frame_trans(def@, i as int, start, before, inst.node_states@);
            }
            let ghost before = inst.node_states@;
            reset_subtree(inst, def, child);
            proof {
                lemma_child_frame(def@, i as int, 0, start, before, inst.node_states@);
                assert(inst.node_states@[i as int] == before[i as int]);
            }
            let ghost before = inst.node_states@;
            let ghost path_before = path@;
            let r = settle(inst, messages, path, env, def, node, BehaviorStatus::Running);
            proof {
                lemma_self_frame(def@, i as int, before, inst.node_states@);
                lemma_frame_trans(def@, i as int, start, before, inst.node_states@);
                lemma_prefix_trans(old(path)@, path_before, path@);
                assert(inst.node_states@[child.0 as int] == before[child.0 as int]);
            }
            r
        },
    }
}

/// Ticks a limiter: once the child has finished `limit` times the decorator
/// fails without entering it; each finished child run is counted.
fn tick_limiter<H: TreeHost>(
    host: &mut H,
    inst: &mut BehaviorTreeInstance,
    bb: &mut BehaviorTreeBlackboard,
    messages: &mut RuntimeMessageBuffer,
    path: &mut Vec<NodeId>,
    env: &TickEnv,
    def: &BehaviorTreeDefinition,
    node: NodeId,
    limit: u32,
) -> (r: BehaviorStatus)
    requires
        ready(def@, *old(inst)),
        node.0 < def@.nodes.len(),
        def@.nodes[node.0 as int].children.len() == 1,
    ensures
        plain_action(def@, only_child(def@, node.0 as int)) ==> at_most_one_run(
            old(inst).host_calls@,
            final(inst).host_calls@,
            def@.nodes[node.0 as int].children[0],
        ),
        quiet(def@, node.0 as int) ==> nothing_aborted(*old(inst), *final(inst), *old(messages), *final(messages)),
        calls_within(def@, node.0 as int, old(inst).host_calls@, final(inst).host_calls@),
        finish_reported(*env, node, *final(messages), r),
        messages_kept(*env, *old(messages), *final(messages)),
        ticked(def@, node.0 as int, *old(inst), *final(inst), old(path)@, final(path)@, r),
        ({
            let used = old(inst).node_states@[node.0 as int].limiter_used;
            &&& used >= limit ==> r == BehaviorStatus::Failure && final(inst).host_calls == old(inst).host_calls && forall|j: int|
                0 <= j < old(inst).node_states@.len() && j != node.0 ==> #[trigger] final(inst).node_states@[j]
                    == old(inst).node_states@[j]
            &&& (used < limit && r != BehaviorStatus::Running) ==> final(inst).node_states@[node.0 as int].limiter_used
                == used + 1
            &&& used < limit ==> r == outcome_of(final(inst).node_states@[only_child(def@, node.0 as int)].status)
        }),
    decreases node_rank(def@, node.0 as int), 0nat,
{
    proof {
        crate::definition::lemma_path_single(graph(def@.nodes), node.0 as int);
    }
    let ghost calls0 = inst.host_calls@;
    proof {
        lemma_calls_none(def@, node.0 as int, calls0);
    }
    let i = node.0 as usize;
    let child = def.nodes[i].children[0];
    assert(def@.nodes[i as int].children[0] == child);
    proof {
        lemma_child_misses_parent(def@, i as int, 0);
    }
    let ghost start = inst.node_states@;
    enter(inst, messages, env, def, node);
    proof {
        lemma_self_frame(def@, i as int, start, inst.node_states@);
    }
    if inst.node_states[i].limiter_used >= limit {
        let ghost before = inst.node_states@;
        let r = finish_node(inst, messages, env, def, node, BehaviorStatus::Failure);
        proof {
            lemma_frame_trans(def@, i as int, start, before, inst.node_states@);
        }
        return r;
    }
    let ghost before = inst.node_states@;
    let ghost path_before = path@;
    let ghost ipre = *inst;
    let ghost mpre = *messages;
let ghost cpre = inst.host_calls@;
    let cr = tick_node(host, inst, bb, messages, path, env, def, child);
    proof {
        lemma_calls_child(def@, node.0 as int, 0 as int, calls0, cpre, inst.host_calls@);
        if quiet(def@, node.0 as int) {
            lemma_quiet_child(def@, node.0 as int, 0 as int);
            lemma_nothing_aborted_trans(*old(inst), ipre, *inst, *old(messages), mpre, *messages);
        }
    }
    proof {
        lemma_child_frame(def@, i as int, 0, start, before, inst.node_states@);
        lemma_prefix_trans(old(path)@, path_before, path@);
        assert(inst.node_states@[i as int] == before[i as int]);
    }
    if cr != BehaviorStatus::Running {
        let ghost before = inst.node_states@;
        let used = inst.node_states[i].limiter_used;
        inst.node_states[i].limiter_used = used + 1;
        proof {
            lemma_self_frame(def@, i as int, before, inst.node_states@);
            lemma_frame_trans(def@, i as int, start, before, inst.node_states@);
        }
    }
    let ghost before = inst.node_states@;
    let ghost path_before = path@;
    let r = settle(inst, messages, path, env, def, node, cr);
    proof {
        lemma_self_frame(def@, i as int, before, inst.node_states@);
        lemma_frame_trans(def@, i as int, start, before, inst.node_states@);
        lemma_prefix_trans(old(path)@, path_before, path@);
        assert(inst.node_states@[child.0 as int] == before[child.0 as int]);
    }
    r
}

/// Ticks a guard or blackboard-condition decorator whose condition came out
/// as `holds`. While it holds, the child runs. When it does not: a running
/// child is aborted if the policy monitors itself (and the decorator fails),
/// or else keeps running; a child that is not running is not entered and
/// the decorator fails.
fn tick_guarded<H: TreeHost>(
    host: &mut H,
    inst: &mut BehaviorTreeInstance,
    bb: &mut BehaviorTreeBlackboard,
    messages: &mut RuntimeMessageBuffer,
    path: &mut Vec<NodeId>,
    env: &TickEnv,
    def: &BehaviorTreeDefinition,
    node: NodeId,
    holds: bool,
    policy: AbortPolicy,
    reason: &str,
) -> (r: BehaviorStatus)
    requires
        ready(def@, *old(inst)),
        node.0 < def@.nodes.len(),
        def@.nodes[node.0 as int].children.len() == 1,
    ensures
        (quiet(def@, node.0 as int) && !(policy == AbortPolicy::SelfOnly || policy == AbortPolicy::Both)) ==> nothing_aborted(*old(inst), *final(inst), *old(messages), *final(messages)),
        calls_within(def@, node.0 as int, old(inst).host_calls@, final(inst).host_calls@),
        finish_reported(*env, node, *final(messages), r),
        messages_kept(*env, *old(messages), *final(messages)),
        ticked(def@, node.0 as int, *old(inst), *final(inst), old(path)@, final(path)@, r),
        ({
            let child = only_child(def@, node.0 as int);
            let child_running = old(inst).node_states@[child].status == BehaviorTreeRunState::Running;
            &&& (!holds && !child_running) ==> r == BehaviorStatus::Failure && final(inst).host_calls == old(inst).host_calls && forall|j: int|
                0 <= j < old(inst).node_states@.len() && j != node.0 ==> #[trigger] final(inst).node_states@[j]
                    == old(inst).node_states@[j]
            &&& (!holds && child_running && (policy == AbortPolicy::SelfOnly || policy == AbortPolicy::Both))
                ==> r == BehaviorStatus::Failure && forall|j: int|
                0 <= j < def@.nodes.len() && #[trigger] reachable(graph(def@.nodes), child, j)
                    ==> final(inst).node_states@[j].is_restarted()
            &&& (holds || (child_running && !(policy == AbortPolicy::SelfOnly || policy == AbortPolicy::Both)))
                ==> r == outcome_of(final(inst).node_states@[only_child(def@, node.0 as int)].status)
            &&& (!holds && child_running && (policy == AbortPolicy::SelfOnly || policy == AbortPolicy::Both)
                && def@.nodes[child].kind is Action) ==> final(inst).host_calls@ == old(inst).host_calls@.push(
                HostCall::Abort { node: def@.nodes[node.0 as int].children[0] },
            )
            &&& (!holds && child_running && !(policy == AbortPolicy::SelfOnly || policy == AbortPolicy::Both)
                && plain_action(def@, child)) ==> action_called(
                old(inst).host_calls@,
                final(inst).host_calls@,
                def@.nodes[node.0 as int].children[0],
                BehaviorTreeRunState::Running,
                r,
            )
        }),
    decreases node_rank(def@, node.0 as int), 0nat,
{
    proof {
        crate::definition::lemma_path_single(graph(def@.nodes), node.0 as int);
    }
    let ghost calls0 = inst.host_calls@;
    proof {
        lemma_calls_none(def@, node.0 as int, calls0);
    }
    let i = node.0 as usize;
    let child = def.nodes[i].children[0];
    assert(def@.nodes[i as int].children[0] == child);
    proof {
        lemma_child_misses_parent(def@, i as int, 0);
    }
    let ghost start = inst.node_states@;
    enter(inst, messages, env, def, node);
    proof {
        lemma_self_frame(def@, i as int, start, inst.node_states@);
    }
    let child_running = matches!(inst.node_states[child.0 as usize].status, BehaviorTreeRunState::Running);
    if !holds && !(child_running && !policy.monitors_self()) {
        if child_running {
            let ghost before = inst.node_states@;
            let ghost cpre = inst.host_calls@;
            abort_subtree(host, inst, bb, messages, env, def, child, reason.to_owned(), true);
            proof {
                lemma_calls_child(def@, node.0 as int, 0 as int, calls0, cpre, inst.host_calls@);
            }
            proof {
                lemma_child_frame(def@, i as int, 0, start, before, inst.node_states@);
                if def@.nodes[child.0 as int].kind is Action {
                    lemma_lone_abort(def@, child, before, cpre, inst.host_calls@);
                }
            }
        }
        let ghost before = inst.node_states@;
        let r = finish_node(inst, messages, env, def, node, BehaviorStatus::Failure);
        proof {
            lemma_frame_trans(def@, i as int, start, before, inst.node_states@);
        }
        return r;
    }
    let ghost before = inst.node_states@;
    let ghost path_before = path@;
    let ghost ipre = *inst;
    let ghost mpre = *messages;
let ghost cpre = inst.host_calls@;
    let cr = tick_node(host, inst, bb, messages, path, env, def, child);
    proof {
        lemma_calls_child(def@, node.0 as int, 0 as int, calls0, cpre, inst.host_calls@);
        if quiet(def@, node.0 as int) {
            lemma_quiet_child(def@, node.0 as int, 0 as int);
            lemma_nothing_aborted_trans(*old(inst), ipre, *inst, *old(messages), mpre, *messages);
        }
    }
    proof {
        lemma_child_frame(def@, i as int, 0, start, before, inst.node_states@);
        lemma_prefix_trans(old(path)@, path_before, path@);
    }
    let ghost before = inst.node_states@;
    let ghost path_before = path@;
    let r = settle(inst, messages, path, env, def, node, cr);
    proof {
        lemma_self_frame(def@, i as int, before, inst.node_states@);
        lemma_frame_trans(def@, i as int, start, before, inst.node_states@);
        lemma_prefix_trans(old(path)@, path_before, path@);
        assert(inst.node_states@[child.0 as int] == before[child.0 as int]);
    }
    r
}

/// Ticks a delay: the first entry sets a deadline `micros` later; until it
/// passes the decorator runs without touching its child; afterwards the
/// child runs, and a finished child clears the deadline.
fn tick_delay<H: TreeHost>(
    host: &mut H,
    inst: &mut BehaviorTreeInstance,
    bb: &mut BehaviorTreeBlackboard,
    messages: &mut RuntimeMessageBuffer,
    path: &mut Vec<NodeId>,
    env: &TickEnv,
    def: &BehaviorTreeDefinition,
    node: NodeId,
    micros: i64,
) -> (r: BehaviorStatus)
    requires
        ready(def@, *old(inst)),
        node.0 < def@.nodes.len(),
        def@.nodes[node.0 as int].children.len() == 1,
    ensures
        plain_action(def@, only_child(def@, node.0 as int)) ==> at_most_one_run(
            old(inst).host_calls@,
            final(inst).host_calls@,
            def@.nodes[node.0 as int].children[0],
        ),
        quiet(def@, node.0 as int) ==> nothing_aborted(*old(inst), *final(inst), *old(messages), *final(messages)),
        calls_within(def@, node.0 as int, old(inst).host_calls@, final(inst).host_calls@),
        finish_reported(*env, node, *final(messages), r),
        messages_kept(*env, *old(messages), *final(messages)),
        ticked(def@, node.0 as int, *old(inst), *final(inst), old(path)@, final(path)@, r),
        ({
            let due = match old(inst).node_states@[node.0 as int].delay_until {
                Some(t) => t,
                None => clamp_time(env.now + micros),
            };
            &&& env.now < due ==> r == BehaviorStatus::Running && final(inst).host_calls == old(inst).host_calls
                && final(inst).node_states@[node.0 as int].delay_until == Some(due) && forall|j: int|
                0 <= j < old(inst).node_states@.len() && j != node.0 ==> #[trigger] final(inst).node_states@[j]
                    == old(inst).node_states@[j]
            &&& env.now >= due ==> r == outcome_of(final(inst).node_states@[only_child(def@, node.0 as int)].status) && final(inst).node_states@[node.0 as int].delay_until == (if r
                == BehaviorStatus::Running {
                Some(due)
            } else {
                None
            })
        }),
    decreases node_rank(def@, node.0 as int), 0nat,
{
    proof {
        crate::definition::lemma_path_single(graph(def@.nodes), node.0 as int);
    }
    let ghost calls0 = inst.host_calls@;
    proof {
        lemma_calls_none(def@, node.0 as int, calls0);
    }
    let i = node.0 as usize;
    let child = def.nodes[i].children[0];
    assert(def@.nodes[i as int].children[0] == child);
    proof {
        lemma_child_misses_parent(def@, i as int, 0);
    }
    let ghost start = inst.node_states@;
    enter(inst, messages, env, def, node);
    if inst.node_states[i].delay_until.is_none() {
        inst.node_states[i].delay_until = Some(time_after(env.now, micros));
    }
    proof {
        lemma_self_frame(def@, i as int, start, inst.node_states@);
    }
    let due = match inst.node_states[i].delay_until {
        Some(t) => t,
        None => env.now,
    };
    if env.now < due {
        let ghost before = inst.node_states@;
        let ghost path_before = path@;
        let r = settle(inst, messages, path, env, def, node, BehaviorStatus::Running);
        proof {
            lemma_self_frame(def@, i as int, before, inst.node_states@);
            lemma_frame_trans(def@, i as int, start, before, inst.node_states@);
        }
        return r;
    }
    let ghost before = inst.node_states@;
    let ghost path_before = path@;
    let ghost ipre = *inst;
    let ghost mpre = *messages;
let ghost cpre = inst.host_calls@;
    let cr = tick_node(host, inst, bb, messages, path, env, def, child);
    proof {
        lemma_calls_child(def@, node.0 as int, 0 as int, calls0, cpre, inst.host_calls@);
        if quiet(def@, node.0 as int) {
            lemma_quiet_child(def@, node.0 as int, 0 as int);
            lemma_nothing_aborted_trans(*old(inst), ipre, *inst, *old(messages), mpre, *messages);
        }
    }
    proof {
        lemma_child_frame(def@, i as int, 0, start, before, inst.node_states@);
        lemma_prefix_trans(old(path)@, path_before, path@);
    }
    if cr != BehaviorStatus::Running {
        let ghost before = inst.node_states@;
        inst.node_states[i].delay_until = None;
        proof {
            lemma_self_frame(def@, i as int, before, inst.node_states@);
            lemma_frame_trans(def@, i as int, start, before, inst.node_states@);
        }
    }
    let ghost before = inst.node_states@;
    let ghost path_before = path@;
    let r = settle(inst, messages, path, env, def, node, cr);
    proof {
        lemma_self_frame(def@, i as int, before, inst.node_states@);
        lemma_frame_trans(def@, i as int, start, before, inst.node_states@);
        lemma_prefix_trans(old(path)@, path_before, path@);
        assert(inst.node_states@[child.0 as int] == before[child.0 as int]);
    }
    r
}

/// Ticks a run-once decorator: after its child has finished once it reports
/// `completed_status` without entering the child again.
fn tick_run_once<H: TreeHost>(
    host: &mut H,
    inst: &mut BehaviorTreeInstance,
    bb: &mut BehaviorTreeBlackboard,
    messages: &mut RuntimeMessageBuffer,
    path: &mut Vec<NodeId>,
    env: &TickEnv,
    def: &BehaviorTreeDefinition,
    node: NodeId,
    completed_status: BehaviorStatus,
) -> (r: BehaviorStatus)
    requires
        ready(def@, *old(inst)),
        node.0 < def@.nodes.len(),
        def@.nodes[node.0 as int].children.len() == 1,
        def@.nodes[node.0 as int].kind == NodeKindView::Decorator(DecoratorKindView::RunOnce { completed_status }),
    ensures
        plain_action(def@, only_child(def@, node.0 as int)) ==> at_most_one_run(
            old(inst).host_calls@,
            final(inst).host_calls@,
            def@.nodes[node.0 as int].children[0],
        ),
        quiet(def@, node.0 as int) ==> nothing_aborted(*old(inst), *final(inst), *old(messages), *final(messages)),
        calls_within(def@, node.0 as int, old(inst).host_calls@, final(inst).host_calls@),
        finish_reported(*env, node, *final(messages), r),
        messages_kept(*env, *old(messages), *final(messages)),
        ticked(def@, node.0 as int, *old(inst), *final(inst), old(path)@, final(path)@, r),
        ({
            let counter = old(inst).node_states@[node.0 as int].counter;
            &&& counter > 0 ==> r == completed_status && final(inst).host_calls == old(inst).host_calls && forall|j: int|
                0 <= j < old(inst).node_states@.len() && j != node.0 ==> #[trigger] final(inst).node_states@[j]
                    == old(inst).node_states@[j]
            &&& (counter == 0 && r != BehaviorStatus::Running) ==> final(inst).node_states@[node.0 as int].counter == 1
            &&& counter == 0 ==> r == outcome_of(final(inst).node_states@[only_child(def@, node.0 as int)].status)
        }),
    decreases node_rank(def@, node.0 as int), 0nat,
{
    proof {
        crate::definition::lemma_path_single(graph(def@.nodes), node.0 as int);
    }
    let ghost calls0 = inst.host_calls@;
    proof {
        lemma_calls_none(def@, node.0 as int, calls0);
    }
    let i = node.0 as usize;
    let child = def.nodes[i].children[0];
    assert(def@.nodes[i as int].children[0] == child);
    proof {
        lemma_child_misses_parent(def@, i as int, 0);
    }
    let ghost start = inst.node_states@;
    enter(inst, messages, env, def, node);
    proof {
        lemma_self_frame(def@, i as int, start, inst.node_states@);
    }
    if inst.node_states[i].counter > 0 {
        let ghost before = inst.node_states@;
        let r = finish_node(inst, messages, env, def, node, completed_status);
        proof {
            lemma_frame_trans(def@, i as int, start, before, inst.node_states@);
        }
        return r;
    }
    let ghost before = inst.node_states@;
    let ghost path_before = path@;
    let ghost ipre = *inst;
    let ghost mpre = *messages;
let ghost cpre = inst.host_calls@;
    let cr = tick_node(host, inst, bb, messages, path, env, def, child);
    proof {
        lemma_calls_child(def@, node.0 as int, 0 as int, calls0, cpre, inst.host_calls@);
        if quiet(def@, node.0 as int) {
            lemma_quiet_child(def@, node.0 as int, 0 as int);
            lemma_nothing_aborted_trans(*old(inst), ipre, *inst, *old(messages), mpre, *messages);
        }
    }
    proof {
        lemma_child_frame(def@, i as int, 0, start, before, inst.node_states@);
        lemma_prefix_trans(old(path)@, path_before, path@);
        assert(inst.node_states@[i as int] == before[i as int]);
    }
    if cr != BehaviorStatus::Running {
        let ghost before = inst.node_states@;
        inst.node_states[i].counter = 1;
        proof {
            lemma_self_frame(def@, i as int, before, inst.node_states@);
            lemma_frame_trans(def@, i as int, start, before, inst.node_states@);
        }
    }
    let ghost before = inst.node_states@;
    let ghost path_before = path@;
    let r = settle(inst, messages, path, env, def, node, cr);
    proof {
        lemma_self_frame(def@, i as int, before, inst.node_states@);
        lemma_frame_trans(def@, i as int, start, before, inst.node_states@);
        lemma_prefix_trans(old(path)@, path_before, path@);
        assert(inst.node_states@[child.0 as int] == before[child.0 as int]);
    }
    r
}

/// The path in the opposite order.
fn reversed(v: &Vec<NodeId>) -> (r: Vec<NodeId>)
    ensures
        r@ == v@.reverse(),
{
    let n = v.len();
    let mut out: Vec<NodeId> = Vec::new();
    let mut k: usize = 0;
    while k < n
        invariant
            n == v@.len(),
            k <= n,
            out@ == Seq::new(k as nat, |j: int| v@[n - 1 - j]),
        decreases n - k,
    {
        out.push(v[n - 1 - k]);
        assert(out@ =~= Seq::new((k + 1) as nat, |j: int| v@[n - 1 - j]));
        k = k + 1;
    }
    assert(out@ =~= v@.reverse());
    out
}

/// The message announcing a recorded blackboard change.
fn change_message(entity: EntityBits, change: &BlackboardChange) -> (r: BlackboardValueChanged)
    ensures
        r.entity == entity,
        r.key == change.key,
        r.name@ == change.name@,
        r.revision == change.revision,
        r.old_value == change.old_value,
        r.new_value == change.new_value,
{
    BlackboardValueChanged {
        entity,
        key: change.key,
        name: change.name.clone(),
        revision: change.revision,
        old_value: clone_opt_value(&change.old_value),
        new_value: clone_opt_value(&change.new_value),
    }
}

/// When the tree is next due after a tick at `now`: one period later for
/// interval ticking (at least a millisecond), right away otherwise.
pub open spec fn next_tick_time(mode: TickMode, now: i64) -> i64 {
    match mode {
        TickMode::Interval { period_micros, .. } => clamp_time(now + period_of(period_micros)),
        _ => now,
    }
}

/// Records when the tree is next due after a tick at `now`.
pub fn schedule_next_tick(config: &BehaviorTreeConfig, instance: &mut BehaviorTreeInstance, now: i64)
    ensures
        *final(instance) == (BehaviorTreeInstance {
            next_tick_at: next_tick_time(config.tick_mode, now),
            ..*old(instance)
        }),
{
    instance.next_tick_at = match config.tick_mode {
        TickMode::Interval { period_micros, .. } => time_after(now, effective_period(period_micros)),
        _ => now,
    };
}

/// Whether a tree is due at `now`: always when a wake was requested;
/// never when it has completed and does not restart on completion;
/// otherwise every frame, once its interval has come, or (manual ticking)
/// not at all.
pub open spec fn tick_due(config: BehaviorTreeConfig, instance: BehaviorTreeInstance, now: i64) -> bool {
    if instance.wake_requested {
        true
    } else if (instance.status == BehaviorTreeRunState::Success || instance.status
        == BehaviorTreeRunState::Failure) && !config.restart_on_completion {
        false
    } else {
        match config.tick_mode {
            TickMode::EveryFrame => true,
            TickMode::Interval { .. } => now >= instance.next_tick_at,
            TickMode::Manual => false,
        }
    }
}

pub fn should_tick(config: &BehaviorTreeConfig, instance: &BehaviorTreeInstance, now: i64) -> (r: bool)
    ensures
        r == tick_due(*config, *instance, now),
{
    if instance.wake_requested {
        return true;
    }
    if matches!(instance.status, BehaviorTreeRunState::Success | BehaviorTreeRunState::Failure)
        && !config.restart_on_completion {
        return false;
    }
    match config.tick_mode {
        TickMode::EveryFrame => true,
        TickMode::Interval { .. } => now >= instance.next_tick_at,
        TickMode::Manual => false,
    }
}

/// The definition watches `key`; one that watches nothing cares about
/// every key.
pub open spec fn watches(def: DefinitionView, key: BlackboardKeyId) -> bool {
    def.watched_keys.len() == 0 || def.watched_keys.contains(key)
}

/// The blackboard has a dirty key the definition watches.
pub open spec fn cares_about_changes(def: DefinitionView, dirty: Seq<BlackboardKeyId>) -> bool {
    exists|k: int| 0 <= k < dirty.len() && #[trigger] watches(def, dirty[k])
}

fn contains_key(keys: &Vec<BlackboardKeyId>, key: BlackboardKeyId) -> (r: bool)
    ensures
        r == keys@.contains(key),
{
    let mut i: usize = 0;
    while i < keys.len()
        invariant
            i <= keys@.len(),
            forall|j: int| 0 <= j < i ==> keys@[j] != key,
        decreases keys@.len() - i,
    {
        if keys[i] == key {
            return true;
        }
        i = i + 1;
    }
    false
}

pub fn should_wake_for_blackboard(def: &BehaviorTreeDefinition, blackboard: &BehaviorTreeBlackboard) -> (r: bool)
    ensures
        r == cares_about_changes(def@, blackboard.dirty_keys@),
{
    let dirty = &blackboard.dirty_keys;
    let mut i: usize = 0;
    while i < dirty.len()
        invariant
            i <= dirty@.len(),
            dirty@ == blackboard.dirty_keys@,
            forall|k: int| 0 <= k < i ==> !#[trigger] watches(def@, dirty@[k]),
        decreases dirty@.len() - i,
    {
        if def.watched_keys.len() == 0 || contains_key(&def.watched_keys, dirty[i]) {
            assert(watches(def@, blackboard.dirty_keys@[i as int]));
            assert(cares_about_changes(def@, blackboard.dirty_keys@));
            return true;
        }
        i = i + 1;
    }
    false
}

/// Runs one tick of the tree from its root: the tick is counted, the last
/// running leaf and the pending wake are cleared, the root is ticked, and
/// the instance records the overall status and the active path (root
/// first). A finished tree announces its completion when lifecycle messages
/// are on; the next due time and the observed blackboard revision are
/// recorded; and the blackboard's recent changes are handed out as messages
/// when blackboard messages are on, or dropped.
pub fn tick_tree<H: TreeHost>(
    host: &mut H,
    def: &BehaviorTreeDefinition,
    env: &TickEnv,
    inst: &mut BehaviorTreeInstance,
    bb: &mut BehaviorTreeBlackboard,
    messages: &mut RuntimeMessageBuffer,
) -> (r: BehaviorStatus)
    requires
        ready(def@, *old(inst)),
    ensures
        ready(def@, *final(inst)),
        final(inst).definition == old(inst).definition,
        final(inst).status == run_state_of(r),
        final(inst).node_states@[def@.root.0 as int].status == run_state_of(r),
        final(inst).metrics.tick_count == old(inst).metrics.tick_count.saturating_add(1),
        (r == BehaviorStatus::Running && !parked_running(def@, def@.root.0 as int)) ==> final(inst).active_path@.len() > 0
            && final(inst).active_path@[0] == def@.root,
        r != BehaviorStatus::Running ==> final(inst).active_path@.len() == 0,
        finish_reported(*env, def@.root, *final(messages), r),
        kind_result(def@, def@.root.0 as int, *env, final(inst).node_states@, r),
        calls_within(def@, def@.root.0 as int, old(inst).host_calls@, final(inst).host_calls@),
        plain_action(def@, def@.root.0 as int) ==> action_called(
            old(inst).host_calls@,
            final(inst).host_calls@,
            def@.root,
            old(inst).node_states@[def@.root.0 as int].status,
            r,
        ),
        quiet(def@, def@.root.0 as int) ==> nothing_aborted(*old(inst), *final(inst), *old(messages), *final(messages)),
        def@.nodes[def@.root.0 as int].services.len() == 0 ==> decorator_result(
            def@,
            def@.root.0 as int,
            *env,
            old(inst).node_states@,
            final(inst).node_states@,
            r,
        ),
        final(inst).next_tick_at == next_tick_time(env.config.tick_mode, env.now),
        final(inst).observed_blackboard_revision == final(bb).total_revision,
        final(bb).recent_changes@.len() == 0,
        (r != BehaviorStatus::Running && env.config.emit_lifecycle_messages) ==> final(messages).tree_completed@.last()
            == (TreeCompleted { entity: env.entity, definition: old(inst).definition, status: r }),
        !env.config.emit_lifecycle_messages ==> {
            &&& final(messages).tree_completed@ == old(messages).tree_completed@
            &&& final(messages).node_started@ == old(messages).node_started@
            &&& final(messages).node_finished@ == old(messages).node_finished@
            &&& final(messages).branch_aborted@ == old(messages).branch_aborted@
        },
        !env.config.emit_blackboard_messages ==> final(messages).blackboard_changed@ == old(
            messages,
        ).blackboard_changed@,
{
    let ticks = inst.metrics.tick_count;
    inst.last_running_leaf = None;
    inst.wake_requested = false;
    inst.wake_reason = String::new();
    let mut path: Vec<NodeId> = Vec::new();
    let r = tick_node(host, inst, bb, messages, &mut path, env, def, def.root);
    inst.metrics.tick_count = ticks.saturating_add(1);
    inst.active_path = if r == BehaviorStatus::Running {
        reversed(&path)
    } else {
        Vec::new()
    };
    inst.status = run_state_from(r);
    if r != BehaviorStatus::Running && env.config.emit_lifecycle_messages {
        messages.tree_completed.push(
            TreeCompleted { entity: env.entity, definition: inst.definition, status: r },
        );
    }
    schedule_next_tick(&env.config, inst, env.now);
    inst.observed_blackboard_revision = bb.total_revision;
    if env.config.emit_blackboard_messages {
        let changes = bb.take_recent_changes();
        let ghost before = *messages;
        let mut k: usize = 0;
        while k < changes.len()
            invariant
                k <= changes@.len(),
                messages.tree_completed@ == before.tree_completed@,
                messages.node_started@ == before.node_started@,
                messages.node_finished@ == before.node_finished@,
                messages.branch_aborted@ == before.branch_aborted@,
            decreases changes@.len() - k,
        {
            messages.blackboard_changed.push(change_message(env.entity, &changes[k]));
            k = k + 1;
        }
    } else {
        bb.recent_changes.clear();
    }
    r
}

/// A requested wake always makes the tree due.
pub proof fn law_wake_always_ticks(config: BehaviorTreeConfig, instance: BehaviorTreeInstance, now: i64)
    requires
        instance.wake_requested,
    ensures
        tick_due(config, instance, now),
{
}

/// A manually ticked tree sleeps until it is woken.
pub proof fn law_manual_tree_waits_for_wake(config: BehaviorTreeConfig, instance: BehaviorTreeInstance, now: i64)
    requires
        config.tick_mode == TickMode::Manual,
        !instance.wake_requested,
    ensures
        !tick_due(config, instance, now),
{
}

/// A completed tree that does not restart on completion stays dormant
/// until it is woken.
pub proof fn law_completed_tree_stays_dormant(config: BehaviorTreeConfig, instance: BehaviorTreeInstance, now: i64)
    requires
        instance.status == BehaviorTreeRunState::Success || instance.status == BehaviorTreeRunState::Failure,
        !config.restart_on_completion,
        !instance.wake_requested,
    ensures
        !tick_due(config, instance, now),
{
}

/// An interval tree that is not woken ticks exactly once its next due time
/// has come (unless it completed and does not restart).
pub proof fn law_interval_tree_ticks_when_due(config: BehaviorTreeConfig, instance: BehaviorTreeInstance, now: i64)
    requires
        config.tick_mode is Interval,
        !instance.wake_requested,
        config.restart_on_completion || !(instance.status == BehaviorTreeRunState::Success || instance.status
            == BehaviorTreeRunState::Failure),
    ensures
        tick_due(config, instance, now) == (now >= instance.next_tick_at),
{
}

/// After a tick, an interval tree is next due at least a millisecond later
/// (the clock's end aside); other trees are due again at once.
pub proof fn law_interval_period_is_at_least_a_millisecond(mode: TickMode, now: i64)
    requires
        now <= i64::MAX - 1000,
    ensures
        mode is Interval ==> next_tick_time(mode, now) >= now + 1000,
        !(mode is Interval) ==> next_tick_time(mode, now) == now,
{
}

/// An inverter swaps success and failure and passes `Running` through.
pub proof fn law_inverter_swaps_results(child: BehaviorStatus)
    ensures
        mapped_status(DecoratorKindView::Inverter, child) == match child {
            BehaviorStatus::Success => BehaviorStatus::Failure,
            BehaviorStatus::Failure => BehaviorStatus::Success,
            BehaviorStatus::Running => BehaviorStatus::Running,
        },
        mapped_status(DecoratorKindView::Inverter, mapped_status(DecoratorKindView::Inverter, child)) == child,
{
}

/// Force-success and succeeder never fail; force-failure never succeeds;
/// all three run exactly while their child runs.
pub proof fn law_forcing_decorators(child: BehaviorStatus)
    ensures
        mapped_status(DecoratorKindView::ForceSuccess, child) != BehaviorStatus::Failure,
        mapped_status(DecoratorKindView::Succeeder, child) != BehaviorStatus::Failure,
        mapped_status(DecoratorKindView::ForceFailure, child) != BehaviorStatus::Success,
        (mapped_status(DecoratorKindView::ForceSuccess, child) == BehaviorStatus::Running) == (child
            == BehaviorStatus::Running),
        (mapped_status(DecoratorKindView::ForceFailure, child) == BehaviorStatus::Running) == (child
            == BehaviorStatus::Running),
{
}

/// A repeater never fails: a finished child either ends it with success
/// (its limit reached) or starts another round.
pub proof fn law_repeater_never_fails(limit: Option<u32>, counter: u32, child: BehaviorStatus)
    ensures
        repeat_outcome(DecoratorKindView::Repeater { limit }, counter, child) != Some(BehaviorStatus::Failure),
        limit is None ==> repeat_outcome(DecoratorKindView::Repeater { limit }, counter, child) is None,
{
}

/// A retry succeeds as soon as its child does, and fails only once its
/// attempts are used up.
pub proof fn law_retry_fails_only_when_exhausted(attempts: u32, counter: u32)
    ensures
        repeat_outcome(DecoratorKindView::Retry { attempts }, counter, BehaviorStatus::Success) == Some(
            BehaviorStatus::Success,
        ),
        (repeat_outcome(DecoratorKindView::Retry { attempts }, counter, BehaviorStatus::Failure) == Some(
            BehaviorStatus::Failure,
        )) == (counter >= attempts),
{
}

/// Until-success stops on the first success; until-failure reports success
/// on the first failure; without a limit neither ever fails.
pub proof fn law_until_decorators(limit: Option<u32>, counter: u32, child: BehaviorStatus)
    ensures
        repeat_outcome(DecoratorKindView::UntilSuccess { limit }, counter, BehaviorStatus::Success) == Some(
            BehaviorStatus::Success,
        ),
        repeat_outcome(DecoratorKindView::UntilFailure { limit }, counter, BehaviorStatus::Failure) == Some(
            BehaviorStatus::Success,
        ),
        limit is None ==> repeat_outcome(DecoratorKindView::UntilSuccess { limit }, counter, child) != Some(
            BehaviorStatus::Failure,
        ),
        limit is None ==> repeat_outcome(DecoratorKindView::UntilFailure { limit }, counter, child) != Some(
            BehaviorStatus::Failure,
        ),
{
}

} // verus!
