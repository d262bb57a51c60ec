//! A tree definition as an authored asset, registered into the library.
use vstd::prelude::*;

use crate::definition::{BehaviorTreeDefinition, BehaviorTreeDefinitionId};
use crate::resources::BehaviorTreeLibrary;

verus! {

/// A definition loaded from an asset file.
#[derive(Debug)]
pub struct BehaviorTreeDefinitionAsset {
    pub definition: BehaviorTreeDefinition,
}

impl BehaviorTreeDefinitionAsset {
    /// Registers a copy of the asset's definition.
    pub fn register(&self, library: &mut BehaviorTreeLibrary) -> (r: Result<BehaviorTreeDefinitionId, String>)
        ensures
            final(library).definitions@.len() == old(library).definitions@.len() + 1,
            final(library).definitions@.drop_last() == old(library).definitions@,
            final(library).definitions@.last()@ == self.definition@,
            r == Ok::<BehaviorTreeDefinitionId, String>(BehaviorTreeDefinitionId(old(library).definitions@.len() as u16)),
    {
        library.register(self.definition.clone())
    }
}

impl From<BehaviorTreeDefinition> for BehaviorTreeDefinitionAsset {
    fn from(definition: BehaviorTreeDefinition) -> (r: Self) {
        BehaviorTreeDefinitionAsset { definition }
    }
}

impl vstd::std_specs::convert::FromSpecImpl<BehaviorTreeDefinition> for BehaviorTreeDefinitionAsset {
    open spec fn obeys_from_spec() -> bool {
        true
    }

    open spec fn from_spec(v: BehaviorTreeDefinition) -> Self {
        BehaviorTreeDefinitionAsset { definition: v }
    }
}

} // verus!
