//! The shared library of registered tree definitions.
use vstd::prelude::*;

use crate::definition::{BehaviorTreeDefinition, BehaviorTreeDefinitionId};

verus! {

/// Registered definitions, each found again by the id it was given.
#[derive(Debug)]
pub struct BehaviorTreeLibrary {
    pub definitions: Vec<BehaviorTreeDefinition>,
}

impl Default for BehaviorTreeLibrary {
    fn default() -> (r: Self)
        ensures
            r.definitions@.len() == 0,
    {
        BehaviorTreeLibrary { definitions: Vec::new() }
    }
}

impl BehaviorTreeLibrary {
    /// Appends the definition; its id is its position, kept to 16 bits. It
    /// always succeeds.
    pub fn register(&mut self, definition: BehaviorTreeDefinition) -> (r: Result<BehaviorTreeDefinitionId, String>)
        ensures
            final(self).definitions@ == old(self).definitions@.push(definition),
            r == Ok::<BehaviorTreeDefinitionId, String>(BehaviorTreeDefinitionId(old(self).definitions@.len() as u16)),
    {
        #[verifier::truncate]
        let id = BehaviorTreeDefinitionId(self.definitions.len() as u16);
        self.definitions.push(definition);
        Ok(id)
    }

    /// The definition registered under `id`.
    pub fn get(&self, id: BehaviorTreeDefinitionId) -> (r: Option<&BehaviorTreeDefinition>)
        ensures
            (id.0 < self.definitions@.len()) == (r is Some),
            r is Some ==> *r->0 == self.definitions@[id.0 as int],
    {
        let index = id.0 as usize;
        if index < self.definitions.len() {
            Some(&self.definitions[index])
        } else {
            None
        }
    }
}

/// A definition registered while fewer than 65536 are held is found again
/// under the id `register` returned, and earlier registrations keep theirs.
pub proof fn law_registered_definition_is_found(
    before: Seq<BehaviorTreeDefinition>,
    definition: BehaviorTreeDefinition,
    earlier: int,
)
    requires
        before.len() < 65536,
        0 <= earlier < before.len(),
    ensures
        ({
            let after = before.push(definition);
            let id = (before.len() as u16) as int;
            &&& id < after.len()
            &&& after[id] == definition
            &&& after[earlier] == before[earlier]
        }),
{
}

} // verus!
