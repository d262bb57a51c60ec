//! Inspection data: the bounded trace and the filter that selects which
//! agents a debug view shows.
use vstd::prelude::*;

use crate::blackboard::EntityBits;
use crate::definition::{BehaviorTreeDefinition, BehaviorTreeDefinitionId, NodeId};
use crate::nodes::BehaviorStatus;
use crate::text::same_text;

verus! {

#[derive(Clone, Copy, Debug, PartialEq, Eq, Structural, Hash)]
pub enum TraceKind {
    Started,
    Finished,
    Aborted,
    Service,
    Wake,
    BlackboardChanged,
}

#[derive(Debug)]
pub struct BehaviorTreeTraceEntry {
    pub frame: u64,
    pub node: NodeId,
    pub kind: TraceKind,
    pub status: Option<BehaviorStatus>,
    pub note: String,
}

/// The most recent trace entries, at most `capacity` of them.
#[derive(Debug)]
pub struct BehaviorTreeTrace {
    pub capacity: usize,
    pub entries: Vec<BehaviorTreeTraceEntry>,
}

/// The entries after appending `entry` and dropping the oldest ones beyond
/// `capacity`.
pub open spec fn trace_after_push(
    entries: Seq<BehaviorTreeTraceEntry>,
    capacity: usize,
    entry: BehaviorTreeTraceEntry,
) -> Seq<BehaviorTreeTraceEntry> {
    let all = entries.push(entry);
    if all.len() > capacity {
        all.subrange(all.len() - capacity, all.len() as int)
    } else {
        all
    }
}

impl BehaviorTreeTrace {
    /// Appends `entry`, keeping only the last `capacity` entries.
    pub fn push(&mut self, entry: BehaviorTreeTraceEntry)
        ensures
            final(self).capacity == old(self).capacity,
            final(self).entries@ == trace_after_push(old(self).entries@, old(self).capacity, entry),
    {
        self.entries.push(entry);
        if self.entries.len() > self.capacity {
            let overflow = self.entries.len() - self.capacity;
            let rest = self.entries.split_off(overflow);
            self.entries = rest;
        }
    }
}

impl Default for BehaviorTreeTrace {
    fn default() -> (r: Self)
        ensures
            r.capacity == 0,
            r.entries@ == Seq::<BehaviorTreeTraceEntry>::empty(),
    {
        BehaviorTreeTrace { capacity: 0, entries: Vec::new() }
    }
}

/// The trace never holds more entries than its capacity allows (once it has
/// been pushed to), and the newest entry is always the last one kept.
pub proof fn law_trace_is_bounded(
    entries: Seq<BehaviorTreeTraceEntry>,
    capacity: usize,
    entry: BehaviorTreeTraceEntry,
)
    ensures
        trace_after_push(entries, capacity, entry).len() <= if capacity == 0 {
            0
        } else {
            capacity as int
        },
        capacity > 0 ==> trace_after_push(entries, capacity, entry).last() == entry,
        entries.len() < capacity ==> trace_after_push(entries, capacity, entry) == entries.push(entry),
{
}

/// Narrows which agents a debug view shows.
#[derive(Debug)]
pub struct BehaviorTreeDebugFilter {
    pub entity: Option<EntityBits>,
    pub definition: Option<BehaviorTreeDefinitionId>,
    pub tag: Option<String>,
}

impl Default for BehaviorTreeDebugFilter {
    fn default() -> (r: Self)
        ensures
            r.entity is None && r.definition is None && r.tag is None,
    {
        BehaviorTreeDebugFilter { entity: None, definition: None, tag: None }
    }
}

/// Some node on `path` carries `tag`.
pub open spec fn path_has_tag(definition: crate::definition::DefinitionView, path: Seq<NodeId>, tag: Seq<char>) -> bool {
    exists|i: int, t: int|
        0 <= i < path.len() && path[i].0 < definition.nodes.len() && 0 <= t < definition.nodes[path[i].0 as int].tags.len()
            && (#[trigger] definition.nodes[path[i].0 as int].tags[t]) == tag
}

/// Whether the filter lets an agent through: its entity and definition must
/// match when the filter names them, and when it names a tag some node of
/// the active path must carry it (an agent whose definition is unknown never
/// matches a tag).
pub open spec fn filter_admits(
    filter: BehaviorTreeDebugFilter,
    entity: EntityBits,
    definition_id: BehaviorTreeDefinitionId,
    definition: Option<crate::definition::DefinitionView>,
    active_path: Seq<NodeId>,
) -> bool {
    &&& (filter.entity matches Some(e) ==> e == entity)
    &&& (filter.definition matches Some(d) ==> d == definition_id)
    &&& (filter.tag matches Some(tag) ==> (definition matches Some(def) && path_has_tag(def, active_path, tag@)))
}

impl BehaviorTreeDebugFilter {
    pub fn admits(
        &self,
        entity: EntityBits,
        definition_id: BehaviorTreeDefinitionId,
        definition: Option<&BehaviorTreeDefinition>,
        active_path: &Vec<NodeId>,
    ) -> (r: bool)
        ensures
            r == filter_admits(
                *self,
                entity,
                definition_id,
                match definition {
                    Some(d) => Some(d@),
                    None => None,
                },
                active_path@,
            ),
    {
        if let Some(selected) = self.entity {
            if selected.0 != entity.0 {
                return false;
            }
        }
        if let Some(selected) = self.definition {
            if selected.0 != definition_id.0 {
                return false;
            }
        }
        match &self.tag {
            None => true,
            Some(tag) => match definition {
                None => false,
                Some(def) => path_carries_tag(def, active_path, tag),
            },
        }
    }
}

fn path_carries_tag(def: &BehaviorTreeDefinition, path: &Vec<NodeId>, tag: &String) -> (r: bool)
    ensures
        r == path_has_tag(def@, path@, tag@),
{
    let mut i: usize = 0;
    while i < path.len()
        invariant
            i <= path@.len(),
            forall|a: int, t: int|
                0 <= a < i && path@[a].0 < def@.nodes.len() && 0 <= t < def@.nodes[path@[a].0 as int].tags.len()
                    ==> (#[trigger] def@.nodes[path@[a].0 as int].tags[t]) != tag@,
        decreases path@.len() - i,
    {
        let index = path[i].0 as usize;
        if index < def.nodes.len() {
            let tags = &def.nodes[index].tags;
            let mut t: usize = 0;
            while t < tags.len()
                invariant
                    t <= tags@.len(),
                    i < path@.len(),
                    index < def@.nodes.len(),
                    index == path@[i as int].0,
                    tags@ == def.nodes@[index as int].tags@,
                    forall|m: int| 0 <= m < t ==> (#[trigger] tags@[m])@ != tag@,
                decreases tags@.len() - t,
            {
                if same_text(tags[t].as_str(), tag.as_str()) {
                    assert(def@.nodes[index as int].tags[t as int] == tag@);
                    assert(def@.nodes[path@[i as int].0 as int].tags[t as int] == tag@);
                    return true;
                }
                t = t + 1;
            }
            assert forall|m: int| 0 <= m < def@.nodes[index as int].tags.len() implies (#[trigger] def@.nodes[index as int].tags[m]) != tag@ by {
                assert(def@.nodes[index as int].tags[m] == tags@[m]@);
            }
        }
        i = i + 1;
    }
    false
}

} // verus!
