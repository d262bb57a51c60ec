//! The component that makes an entity run a behavior tree.
use vstd::prelude::*;

use crate::definition::BehaviorTreeDefinitionId;
use crate::runtime::BehaviorTreeConfig;

verus! {

/// Which definition an entity runs, how, and whether it runs at all.
#[derive(Clone, Copy, Debug, PartialEq, Eq, Structural)]
pub struct BehaviorTreeAgent {
    pub definition: BehaviorTreeDefinitionId,
    pub config: BehaviorTreeConfig,
    pub enabled: bool,
}

impl BehaviorTreeAgent {
    /// An enabled agent running `definition` with the default configuration.
    pub fn new(definition: BehaviorTreeDefinitionId) -> (r: Self)
        ensures
            r.definition == definition,
            r.enabled,
            r.config == (BehaviorTreeConfig {
                tick_mode: crate::runtime::TickMode::EveryFrame,
                restart_on_completion: false,
                preserve_blackboard_on_definition_change: true,
                emit_lifecycle_messages: false,
                emit_blackboard_messages: false,
                trace_capacity: 64,
            }),
    {
        BehaviorTreeAgent { definition, config: BehaviorTreeConfig::default(), enabled: true }
    }

    /// The same agent with `config`.
    pub fn with_config(self, config: BehaviorTreeConfig) -> (r: Self)
        ensures
            r == (BehaviorTreeAgent { config, ..self }),
    {
        BehaviorTreeAgent { config, ..self }
    }
}

} // verus!
