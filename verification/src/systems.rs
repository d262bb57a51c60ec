//! The per-entity decisions of the update pipeline: control requests,
//! blackboard-driven wakeups, instance (re)creation and end-of-frame
//! cleanup. The application walks its entities and messages and calls these.
use vstd::prelude::*;

use crate::blackboard::{
    carried_ids_in_range, resized_values, schema_eq, BehaviorTreeBlackboard, BlackboardKeyId,
    BlackboardSchema, BlackboardView,
};
use crate::definition::{BehaviorTreeDefinition, BehaviorTreeDefinitionId};
use crate::execution::{cares_about_changes, should_wake_for_blackboard, tick_due};
use crate::handlers::ActionTicket;
use crate::nodes::BehaviorStatus;
use crate::runtime::{
    clamp_time, effective_period, period_of, time_after, BehaviorTreeConfig, BehaviorTreeInstance,
    BehaviorTreeRunState, NodeRuntimeState, TickMode,
};

verus! {

/// A wake request: the tree ticks at its next evaluation.
pub fn apply_wake(instance: &mut BehaviorTreeInstance, reason: String)
    ensures
        *final(instance) == (BehaviorTreeInstance {
            wake_requested: true,
            wake_reason: reason,
            ..*old(instance)
        }),
{
    instance.wake_requested = true;
    instance.wake_reason = reason;
}

/// A reset request: the tree goes back to idle with every slot fresh, drops
/// its active path and last running leaf, and is woken.
pub fn apply_reset(instance: &mut BehaviorTreeInstance, reason: String)
    ensures
        final(instance).status == BehaviorTreeRunState::Idle,
        final(instance).active_path@.len() == 0,
        final(instance).last_running_leaf is None,
        final(instance).wake_requested,
        final(instance).wake_reason == reason,
        final(instance).node_states@.len() == old(instance).node_states@.len(),
        forall|i: int| 0 <= i < final(instance).node_states@.len() ==> (#[trigger] final(instance).node_states@[i]).is_fresh(),
        final(instance).definition == old(instance).definition,
        final(instance).next_tick_at == old(instance).next_tick_at,
        final(instance).observed_blackboard_revision == old(instance).observed_blackboard_revision,
        final(instance).action_ticket_counter == old(instance).action_ticket_counter,
        final(instance).metrics == old(instance).metrics,
        final(instance).trace == old(instance).trace,
        final(instance).last_abort_reason == old(instance).last_abort_reason,
{
    instance.status = BehaviorTreeRunState::Idle;
    instance.active_path.clear();
    instance.last_running_leaf = None;
    instance.wake_requested = true;
    instance.wake_reason = reason;
    let n = instance.node_states.len();
    let ghost mid = *instance;
    let mut i: usize = 0;
    while i < n
        invariant
            n == instance.node_states@.len(),
            i <= n,
            *instance == (BehaviorTreeInstance { node_states: instance.node_states, ..mid }),
            forall|k: int| 0 <= k < i ==> (#[trigger] instance.node_states@[k]).is_fresh(),
        decreases n - i,
    {
        instance.node_states.set(i, NodeRuntimeState::default());
        i = i + 1;
    }
}

/// `i` is the first slot waiting on `ticket`.
pub open spec fn first_holder(states: Seq<NodeRuntimeState>, ticket: ActionTicket, i: int) -> bool {
    &&& 0 <= i < states.len()
    &&& states[i].async_ticket == Some(ticket)
    &&& forall|j: int| 0 <= j < i ==> (#[trigger] states[j]).async_ticket != Some(ticket)
}

/// An async completion: the first slot holding the ticket receives the
/// result and the tree is woken. Returns whether some slot held it; when
/// none does, nothing changes.
pub fn apply_action_resolution(
    instance: &mut BehaviorTreeInstance,
    ticket: ActionTicket,
    status: BehaviorStatus,
) -> (r: bool)
    ensures
        r == exists|i: int| first_holder(old(instance).node_states@, ticket, i),
        !r ==> *final(instance) == *old(instance),
        r ==> ({
            let i = choose|i: int| first_holder(old(instance).node_states@, ticket, i);
            &&& final(instance).node_states@ == old(instance).node_states@.update(
                i,
                NodeRuntimeState { async_resolution: Some(status), ..old(instance).node_states@[i] },
            )
            &&& final(instance).wake_requested
            &&& final(instance).wake_reason@ == "async action resolved"@
            &&& final(instance).status == old(instance).status
            &&& final(instance).definition == old(instance).definition
            &&& final(instance).metrics == old(instance).metrics
        }),
{
    let n = instance.node_states.len();
    let mut i: usize = 0;
    while i < n
        invariant
            n == instance.node_states@.len(),
            i <= n,
            *instance == *old(instance),
            forall|j: int| 0 <= j < i ==> (#[trigger] instance.node_states@[j]).async_ticket != Some(ticket),
        decreases n - i,
    {
        if instance.node_states[i].async_ticket == Some(ticket) {
            proof {
                assert(first_holder(old(instance).node_states@, ticket, i as int));
                let c = choose|c: int| first_holder(old(instance).node_states@, ticket, c);
                if c < i {
                    assert(old(instance).node_states@[c].async_ticket != Some(ticket));
                } else if c > i {
                    assert(old(instance).node_states@[i as int].async_ticket != Some(ticket));
                }
            }
            instance.node_states[i].async_resolution = Some(status);
            instance.wake_requested = true;
            instance.wake_reason = String::from_str("async action resolved");
            return true;
        }
        i = i + 1;
    }
    proof {
        assert forall|c: int| !first_holder(old(instance).node_states@, ticket, c) by {
            if 0 <= c < n {
                assert(old(instance).node_states@[c].async_ticket != Some(ticket));
            }
        }
    }
    false
}

/// A watched blackboard change the instance has not seen yet wakes it.
pub open spec fn blackboard_wakes(def: crate::definition::DefinitionView, blackboard: BlackboardView, observed: u64) -> bool {
    cares_about_changes(def, blackboard.dirty_keys) && blackboard.total_revision != observed
}

pub fn wake_on_blackboard_change(
    def: &BehaviorTreeDefinition,
    blackboard: &BehaviorTreeBlackboard,
    instance: &mut BehaviorTreeInstance,
)
    ensures
        blackboard_wakes(def@, blackboard@, old(instance).observed_blackboard_revision) ==> *final(instance)
            == (BehaviorTreeInstance {
            wake_requested: true,
            wake_reason: final(instance).wake_reason,
            ..*old(instance)
        }) && final(instance).wake_reason@ == "blackboard changed"@,
        !blackboard_wakes(def@, blackboard@, old(instance).observed_blackboard_revision) ==> *final(instance)
            == *old(instance),
{
    if should_wake_for_blackboard(def, blackboard) && blackboard.total_revision
        != instance.observed_blackboard_revision {
        instance.wake_requested = true;
        instance.wake_reason = String::from_str("blackboard changed");
    }
}

/// An entity needs a new instance when it has none or one made for another
/// definition.
pub fn needs_new_instance(current: Option<BehaviorTreeDefinitionId>, wanted: BehaviorTreeDefinitionId) -> (r: bool)
    ensures
        r == (current != Some(wanted)),
{
    match current {
        Some(id) => id != wanted,
        None => true,
    }
}

/// Where the first automatic tick of an interval tree falls within its
/// period: the phase offset taken modulo the period (at least a
/// millisecond).
pub open spec fn initial_offset(period_micros: i64, phase_offset_micros: i64) -> int {
    (phase_offset_micros as int) % (period_of(period_micros) as int)
}

/// A new instance for `definition`: fresh and woken for its activation
/// tick, except that an interval tree with a positive initial offset sleeps
/// until that offset has passed.
pub fn start_instance(
    definition: BehaviorTreeDefinitionId,
    node_count: usize,
    config: &BehaviorTreeConfig,
    now: i64,
) -> (r: BehaviorTreeInstance)
    ensures
        r.definition == definition,
        r.status == BehaviorTreeRunState::Idle,
        r.active_path@.len() == 0,
        r.last_running_leaf is None,
        r.action_ticket_counter == 0,
        r.metrics.tick_count == 0,
        r.trace.capacity == config.trace_capacity,
        r.trace.entries@.len() == 0,
        r.sized_for(node_count as nat),
        forall|i: int| 0 <= i < node_count ==> (#[trigger] r.node_states@[i]).is_fresh(),
        match config.tick_mode {
            TickMode::Interval { period_micros, phase_offset_micros } if initial_offset(period_micros, phase_offset_micros) > 0 => {
                &&& !r.wake_requested
                &&& r.wake_reason@.len() == 0
                &&& r.next_tick_at == clamp_time(now + initial_offset(period_micros, phase_offset_micros))
            },
            _ => {
                &&& r.wake_requested
                &&& r.wake_reason@ == "initial activation"@
                &&& r.next_tick_at == 0
            },
        },
{
    let mut instance = BehaviorTreeInstance::new(definition, node_count, config.trace_capacity);
    if let TickMode::Interval { period_micros, phase_offset_micros } = config.tick_mode {
        let period = effective_period(period_micros);
        let offset = match phase_offset_micros.checked_rem_euclid(period) {
            Some(o) => o,
            None => 0,
        };
        if offset > 0 {
            instance.wake_requested = false;
            instance.wake_reason = String::new();
            instance.next_tick_at = time_after(now, offset);
        }
    }
    instance
}

/// Fits the entity's blackboard to the definition's schema when the schema
/// changed or the instance is new, carrying values over by name and type
/// when `preserve`; otherwise leaves it as it is.
pub fn refresh_blackboard(
    blackboard: &mut BehaviorTreeBlackboard,
    schema: &BlackboardSchema,
    new_instance: bool,
    preserve: bool,
)
    requires
        carried_ids_in_range(old(blackboard)@, schema.keys@, preserve),
    ensures
        (!schema_eq(old(blackboard).schema, *schema) || new_instance) ==> final(blackboard)@ == (BlackboardView {
            keys: schema.keys@,
            values: resized_values(old(blackboard)@, schema.keys@, preserve, schema.keys@.len()),
            revisions: Seq::new(schema.keys@.len(), |i: int| 0u64),
            total_revision: 0,
            dirty_keys: Seq::empty(),
            recent_changes: Seq::empty(),
        }),
        !(!schema_eq(old(blackboard).schema, *schema) || new_instance) ==> *final(blackboard) == *old(blackboard),
{
    if !blackboard.schema.same_as(schema) || new_instance {
        blackboard.resize_to_schema(schema, preserve);
    }
}

/// End of frame: the dirty keys are dropped, and the recent changes too
/// unless blackboard messages are on.
pub fn end_of_frame(blackboard: &mut BehaviorTreeBlackboard, emit_blackboard_messages: bool)
    ensures
        final(blackboard)@ == (BlackboardView {
            dirty_keys: Seq::empty(),
            recent_changes: if emit_blackboard_messages {
                old(blackboard)@.recent_changes
            } else {
                Seq::empty()
            },
            ..old(blackboard)@
        }),
{
    if !emit_blackboard_messages {
        blackboard.recent_changes.clear();
    }
    blackboard.dirty_keys.clear();
}

/// Deactivation: the blackboard keeps its values but forgets its dirty keys
/// and recent changes.
pub fn deactivate_blackboard(blackboard: &mut BehaviorTreeBlackboard)
    ensures
        final(blackboard)@ == (BlackboardView {
            dirty_keys: Seq::empty(),
            recent_changes: Seq::empty(),
            ..old(blackboard)@
        }),
{
    blackboard.dirty_keys.clear();
    blackboard.recent_changes.clear();
}

/// A tree that received a wake request is due at the next evaluation,
/// whatever its tick mode and state.
pub proof fn law_woken_tree_is_due(
    config: BehaviorTreeConfig,
    instance: BehaviorTreeInstance,
    reason: String,
    now: i64,
)
    ensures
        tick_due(config, BehaviorTreeInstance { wake_requested: true, wake_reason: reason, ..instance }, now),
{
}

/// A reset tree is idle and woken, so it is due at the next evaluation.
pub proof fn law_reset_tree_is_due(config: BehaviorTreeConfig, instance: BehaviorTreeInstance, now: i64)
    requires
        instance.status == BehaviorTreeRunState::Idle,
        instance.wake_requested,
    ensures
        tick_due(config, instance, now),
{
}

/// A blackboard change that the definition watches and the instance has not
/// seen makes the tree due, even a manually ticked or completed one.
pub proof fn law_watched_change_makes_tree_due(
    config: BehaviorTreeConfig,
    def: crate::definition::DefinitionView,
    blackboard: BlackboardView,
    instance: BehaviorTreeInstance,
    woken: BehaviorTreeInstance,
    now: i64,
)
    requires
        blackboard_wakes(def, blackboard, instance.observed_blackboard_revision),
        woken == (BehaviorTreeInstance { wake_requested: true, wake_reason: woken.wake_reason, ..instance }),
    ensures
        tick_due(config, woken, now),
{
}


/// Which blackboard writes wake a tree: a definition that watches no key is
/// woken by any dirty key, one that watches keys exactly when one of them is
/// dirty, and nothing wakes a tree while no key is dirty or the instance has
/// already seen the blackboard's revision.
pub proof fn law_dirty_keys_wake_watchers(
    def: crate::definition::DefinitionView,
    blackboard: BlackboardView,
    observed: u64,
)
    ensures
        def.watched_keys.len() == 0 ==> (cares_about_changes(def, blackboard.dirty_keys) <==> blackboard.dirty_keys.len()
            > 0),
        def.watched_keys.len() > 0 ==> (cares_about_changes(def, blackboard.dirty_keys) <==> exists|key: BlackboardKeyId|
            #[trigger] blackboard.dirty_keys.contains(key) && def.watched_keys.contains(key)),
        def.watched_keys.len() == 0 && blackboard.dirty_keys.len() > 0 && blackboard.total_revision != observed
            ==> blackboard_wakes(def, blackboard, observed),
        blackboard.dirty_keys.len() == 0 || blackboard.total_revision == observed ==> !blackboard_wakes(
            def,
            blackboard,
            observed,
        ),
{
    let dirty = blackboard.dirty_keys;
    if def.watched_keys.len() == 0 && dirty.len() > 0 {
        assert(crate::execution::watches(def, dirty[0]));
    }
    if def.watched_keys.len() > 0 {
        if cares_about_changes(def, dirty) {
            let k = choose|k: int| 0 <= k < dirty.len() && #[trigger] crate::execution::watches(def, dirty[k]);
            assert(dirty.contains(dirty[k]));
        }
        if exists|key: BlackboardKeyId| #[trigger] dirty.contains(key) && def.watched_keys.contains(key) {
            let key = choose|key: BlackboardKeyId| #[trigger] dirty.contains(key) && def.watched_keys.contains(key);
            let k = choose|k: int| 0 <= k < dirty.len() && dirty[k] == key;
            assert(crate::execution::watches(def, dirty[k]));
        }
    }
}

} // verus!
