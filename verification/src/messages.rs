//! Messages the runtime emits and accepts, with the entity as its 64-bit
//! encoding, and the buffer that collects emitted messages during a tick.
use vstd::prelude::*;

use crate::blackboard::{BlackboardKeyId, BlackboardValue, EntityBits};
use crate::definition::{BehaviorTreeDefinitionId, NodeId};
use crate::handlers::ActionTicket;
use crate::nodes::BehaviorStatus;

verus! {

#[derive(Debug)]
pub struct TreeCompleted {
    pub entity: EntityBits,
    pub definition: BehaviorTreeDefinitionId,
    pub status: BehaviorStatus,
}

#[derive(Debug)]
pub struct NodeStarted {
    pub entity: EntityBits,
    pub node: NodeId,
    pub path: String,
}

#[derive(Debug)]
pub struct NodeFinished {
    pub entity: EntityBits,
    pub node: NodeId,
    pub path: String,
    pub status: BehaviorStatus,
}

#[derive(Debug)]
pub struct BranchAborted {
    pub entity: EntityBits,
    pub node: NodeId,
    pub path: String,
    pub reason: String,
}

/// Asks the runtime to tick a sleeping tree.
#[derive(Debug)]
pub struct TreeWakeRequested {
    pub entity: EntityBits,
    pub reason: String,
}

impl TreeWakeRequested {
    pub fn new(entity: EntityBits, reason: &str) -> (r: Self)
        ensures
            r.entity == entity,
            r.reason@ == reason@,
    {
        TreeWakeRequested { entity, reason: reason.to_owned() }
    }
}

/// Asks the runtime to reset an entity's runtime state.
#[derive(Debug)]
pub struct TreeResetRequested {
    pub entity: EntityBits,
    pub reason: String,
}

impl TreeResetRequested {
    pub fn new(entity: EntityBits, reason: &str) -> (r: Self)
        ensures
            r.entity == entity,
            r.reason@ == reason@,
    {
        TreeResetRequested { entity, reason: reason.to_owned() }
    }
}

/// Completes the asynchronous work of a running action.
#[derive(Clone, Copy, Debug, PartialEq, Eq, Structural)]
pub struct ActionResolution {
    pub entity: EntityBits,
    pub ticket: ActionTicket,
    pub status: BehaviorStatus,
}

impl ActionResolution {
    pub fn new(entity: EntityBits, ticket: ActionTicket, status: BehaviorStatus) -> (r: Self)
        ensures
            r == (ActionResolution { entity, ticket, status }),
    {
        ActionResolution { entity, ticket, status }
    }
}

#[derive(Debug)]
pub struct BlackboardValueChanged {
    pub entity: EntityBits,
    pub key: BlackboardKeyId,
    pub name: String,
    pub revision: u64,
    pub old_value: Option<BlackboardValue>,
    pub new_value: Option<BlackboardValue>,
}

/// Messages emitted during evaluation, held until they are flushed.
#[derive(Debug)]
pub struct RuntimeMessageBuffer {
    pub tree_completed: Vec<TreeCompleted>,
    pub node_started: Vec<NodeStarted>,
    pub node_finished: Vec<NodeFinished>,
    pub branch_aborted: Vec<BranchAborted>,
    pub blackboard_changed: Vec<BlackboardValueChanged>,
}

impl RuntimeMessageBuffer {
    /// Nothing has been emitted.
    pub open spec fn is_empty(self) -> bool {
        &&& self.tree_completed@.len() == 0
        &&& self.node_started@.len() == 0
        &&& self.node_finished@.len() == 0
        &&& self.branch_aborted@.len() == 0
        &&& self.blackboard_changed@.len() == 0
    }
}

impl Default for RuntimeMessageBuffer {
    fn default() -> (r: Self)
        ensures
            r.is_empty(),
    {
        RuntimeMessageBuffer {
            tree_completed: Vec::new(),
            node_started: Vec::new(),
            node_finished: Vec::new(),
            branch_aborted: Vec::new(),
            blackboard_changed: Vec::new(),
        }
    }
}

} // verus!
