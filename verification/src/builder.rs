//! Building tree definitions: node constructors, blackboard keys, subtree
//! inlining and the validation that `build` performs.
use vstd::prelude::*;

use crate::blackboard::{
    BlackboardCondition, BlackboardKeyDefinition, BlackboardKeyDirection, BlackboardKeyId,
    BlackboardKeyView, BlackboardSchema, BlackboardValue, BlackboardValueType, EntityBits,
    QuatBits, Vec2Bits, Vec3Bits,
};
use crate::definition::{
    edge, graph, is_path, key_views, node_views, on_cycle, path_step, reachable,
    BehaviorTreeDefinition, DefinitionView, NodeDefinition, NodeId, NodeView,
};
use crate::float_bits::FloatBits;
use crate::handlers::{ActionKey, ConditionKey};
use crate::nodes::{
    keys_from_slice, AbortPolicy, BehaviorStatus, DecoratorKind, DecoratorKindView, NodeKind,
    NodeKindView, ParallelPolicy, SelectorKind, SequenceKind, ServiceBinding,
};

verus! {

#[derive(Debug)]
pub enum BehaviorTreeBuildError {
    MissingRoot,
    UnknownNode(NodeId),
    InvalidChildCount { node: NodeId, expected: &'static str, found: usize },
    UnknownSubtreeKey(String),
    RemappedKeyTypeMismatch {
        subtree_key: String,
        subtree_type: BlackboardValueType,
        target_type: BlackboardValueType,
    },
    CycleDetected(NodeId),
    UnreachableNode(NodeId),
}

/// The content of a build error, with texts as character sequences.
pub enum BuildErrorView {
    MissingRoot,
    UnknownNode(NodeId),
    InvalidChildCount { node: NodeId, expected: Seq<char>, found: usize },
    UnknownSubtreeKey(Seq<char>),
    RemappedKeyTypeMismatch {
        subtree_key: Seq<char>,
        subtree_type: BlackboardValueType,
        target_type: BlackboardValueType,
    },
    CycleDetected(NodeId),
    UnreachableNode(NodeId),
}

impl View for BehaviorTreeBuildError {
    type V = BuildErrorView;

    open spec fn view(&self) -> BuildErrorView {
        match *self {
            BehaviorTreeBuildError::MissingRoot => BuildErrorView::MissingRoot,
            BehaviorTreeBuildError::UnknownNode(n) => BuildErrorView::UnknownNode(n),
            BehaviorTreeBuildError::InvalidChildCount { node, expected, found } =>
                BuildErrorView::InvalidChildCount { node, expected: expected@, found },
            BehaviorTreeBuildError::UnknownSubtreeKey(k) => BuildErrorView::UnknownSubtreeKey(k@),
            BehaviorTreeBuildError::RemappedKeyTypeMismatch { subtree_key, subtree_type, target_type } =>
                BuildErrorView::RemappedKeyTypeMismatch {
                subtree_key: subtree_key@,
                subtree_type,
                target_type,
            },
            BehaviorTreeBuildError::CycleDetected(n) => BuildErrorView::CycleDetected(n),
            BehaviorTreeBuildError::UnreachableNode(n) => BuildErrorView::UnreachableNode(n),
        }
    }
}

/// Binds a key of an inlined subtree to a key of the tree being built.
#[derive(Debug)]
pub struct SubtreeRemap {
    pub local_key: String,
    pub target_key: BlackboardKeyId,
}

impl SubtreeRemap {
    pub fn new(local_key: &str, target_key: BlackboardKeyId) -> (r: Self)
        ensures
            r.local_key@ == local_key@,
            r.target_key == target_key,
    {
        SubtreeRemap { local_key: local_key.to_owned(), target_key }
    }
}

pub struct BehaviorTreeBuilder {
    name: String,
    root: Option<NodeId>,
    blackboard_schema: BlackboardSchema,
    nodes: Vec<NodeDefinition>,
}

/// The content of a builder.
pub struct BuilderView {
    pub name: Seq<char>,
    pub root: Option<NodeId>,
    pub keys: Seq<BlackboardKeyView>,
    pub nodes: Seq<NodeView>,
}

impl View for BehaviorTreeBuilder {
    type V = BuilderView;

    closed spec fn view(&self) -> BuilderView {
        BuilderView {
            name: self.name@,
            root: self.root,
            keys: key_views(self.blackboard_schema.keys@),
            nodes: node_views(self.nodes@),
        }
    }
}

/// A fresh node as the builder appends it at position `index`.
pub open spec fn new_node(
    index: int,
    name: Seq<char>,
    kind: NodeKindView,
    children: Seq<NodeId>,
    watch_keys: Seq<BlackboardKeyId>,
) -> NodeView {
    NodeView {
        id: NodeId(index as u16),
        name,
        path: Seq::empty(),
        kind,
        children,
        services: Seq::empty(),
        tags: Seq::empty(),
        watch_keys,
    }
}

/// The keys a decorator watches: a guard's declared keys, or the key a
/// blackboard condition reads.
pub open spec fn decorator_watch_keys(d: DecoratorKindView) -> Seq<BlackboardKeyId> {
    match d {
        DecoratorKindView::Guard { watch_keys, .. } => watch_keys,
        DecoratorKindView::BlackboardCondition { key, .. } => seq![key],
        _ => Seq::empty(),
    }
}

/// A new key definition as the builder appends it at position `index`.
pub open spec fn new_key(
    index: int,
    name: Seq<char>,
    value_type: BlackboardValueType,
    direction: BlackboardKeyDirection,
    required: bool,
    default_value: Option<BlackboardValue>,
    description: Seq<char>,
) -> BlackboardKeyView {
    BlackboardKeyView {
        id: BlackboardKeyId(index as u16),
        name,
        value_type,
        direction,
        required,
        default_value,
        description,
    }
}

proof fn lemma_push_views(nodes: Seq<NodeDefinition>, node: NodeDefinition)
    ensures
        node_views(nodes.push(node)) == node_views(nodes).push(node@),
{
    assert(node_views(nodes.push(node)) =~= node_views(nodes).push(node@));
}

proof fn lemma_push_key_views(keys: Seq<BlackboardKeyDefinition>, key: BlackboardKeyDefinition)
    ensures
        key_views(keys.push(key)) == key_views(keys).push(key@),
{
    assert(key_views(keys.push(key)) =~= key_views(keys).push(key@));
}

impl Default for BehaviorTreeBuilder {
    fn default() -> (r: Self)
        ensures
            r@ == (BuilderView {
                name: Seq::empty(),
                root: None,
                keys: Seq::empty(),
                nodes: Seq::empty(),
            }),
    {
        let r = BehaviorTreeBuilder {
            name: String::new(),
            root: None,
            blackboard_schema: BlackboardSchema { keys: Vec::new() },
            nodes: Vec::new(),
        };
        assert(key_views(r.blackboard_schema.keys@) =~= Seq::empty());
        assert(node_views(r.nodes@) =~= Seq::empty());
        r
    }
}

impl BehaviorTreeBuilder {
    pub fn new(name: &str) -> (r: Self)
        ensures
            r@ == (BuilderView {
                name: name@,
                root: None,
                keys: Seq::empty(),
                nodes: Seq::empty(),
            }),
    {
        let r = BehaviorTreeBuilder {
            name: name.to_owned(),
            root: None,
            blackboard_schema: BlackboardSchema { keys: Vec::new() },
            nodes: Vec::new(),
        };
        assert(key_views(r.blackboard_schema.keys@) =~= Seq::empty());
        assert(node_views(r.nodes@) =~= Seq::empty());
        r
    }

    /// Declares a key; its id is its position in the schema.
    pub fn blackboard_key(
        &mut self,
        name: &str,
        value_type: BlackboardValueType,
        direction: BlackboardKeyDirection,
        required: bool,
        default_value: Option<BlackboardValue>,
        description: &str,
    ) -> (id: BlackboardKeyId)
        ensures
            id == BlackboardKeyId(old(self)@.keys.len() as u16),
            final(self)@ == (BuilderView {
                keys: old(self)@.keys.push(
                    new_key(
                        old(self)@.keys.len() as int,
                        name@,
                        value_type,
                        direction,
                        required,
                        default_value,
                        description@,
                    ),
                ),
                ..old(self)@
            }),
    {
        self.add_key(name.to_owned(), value_type, direction, required, default_value, description.to_owned())
    }

    fn add_key(
        &mut self,
        name: String,
        value_type: BlackboardValueType,
        direction: BlackboardKeyDirection,
        required: bool,
        default_value: Option<BlackboardValue>,
        description: String,
    ) -> (id: BlackboardKeyId)
        ensures
            id == BlackboardKeyId(old(self)@.keys.len() as u16),
            final(self)@ == (BuilderView {
                keys: old(self)@.keys.push(
                    new_key(
                        old(self)@.keys.len() as int,
                        name@,
                        value_type,
                        direction,
                        required,
                        default_value,
                        description@,
                    ),
                ),
                ..old(self)@
            }),
    {
        let id = BlackboardKeyId(self.blackboard_schema.keys.len() as u16);
        let key = BlackboardKeyDefinition {
            id,
            name,
            value_type,
            direction,
            required,
            default_value,
            description,
        };
        proof {
            lemma_push_key_views(self.blackboard_schema.keys@, key);
        }
        self.blackboard_schema.keys.push(key);
        id
    }

    pub fn bool_key(
        &mut self,
        name: &str,
        direction: BlackboardKeyDirection,
        required: bool,
        default_value: Option<bool>,
    ) -> (id: BlackboardKeyId)
        ensures
            id == BlackboardKeyId(old(self)@.keys.len() as u16),
            final(self)@ == (BuilderView {
                keys: old(self)@.keys.push(
                    new_key(
                        old(self)@.keys.len() as int,
                        name@,
                        BlackboardValueType::Bool,
                        direction,
                        required,
                        match default_value {
                            Some(v) => Some(BlackboardValue::Bool(v)),
                            None => None,
                        },
                        Seq::empty(),
                    ),
                ),
                ..old(self)@
            }),
    {
        let default_value = match default_value {
            Some(v) => Some(BlackboardValue::Bool(v)),
            None => None,
        };
        self.add_key(name.to_owned(), BlackboardValueType::Bool, direction, required, default_value, String::new())
    }

    pub fn int_key(
        &mut self,
        name: &str,
        direction: BlackboardKeyDirection,
        required: bool,
        default_value: Option<i32>,
    ) -> (id: BlackboardKeyId)
        ensures
            id == BlackboardKeyId(old(self)@.keys.len() as u16),
            final(self)@ == (BuilderView {
                keys: old(self)@.keys.push(
                    new_key(
                        old(self)@.keys.len() as int,
                        name@,
                        BlackboardValueType::Int,
                        direction,
                        required,
                        match default_value {
                            Some(v) => Some(BlackboardValue::Int(v)),
                            None => None,
                        },
                        Seq::empty(),
                    ),
                ),
                ..old(self)@
            }),
    {
        let default_value = match default_value {
            Some(v) => Some(BlackboardValue::Int(v)),
            None => None,
        };
        self.add_key(name.to_owned(), BlackboardValueType::Int, direction, required, default_value, String::new())
    }

    pub fn float_key(
        &mut self,
        name: &str,
        direction: BlackboardKeyDirection,
        required: bool,
        default_value: Option<FloatBits>,
    ) -> (id: BlackboardKeyId)
        ensures
            id == BlackboardKeyId(old(self)@.keys.len() as u16),
            final(self)@ == (BuilderView {
                keys: old(self)@.keys.push(
                    new_key(
                        old(self)@.keys.len() as int,
                        name@,
                        BlackboardValueType::Float,
                        direction,
                        required,
                        match default_value {
                            Some(v) => Some(BlackboardValue::Float(v)),
                            None => None,
                        },
                        Seq::empty(),
                    ),
                ),
                ..old(self)@
            }),
    {
        let default_value = match default_value {
            Some(v) => Some(BlackboardValue::Float(v)),
            None => None,
        };
        self.add_key(name.to_owned(), BlackboardValueType::Float, direction, required, default_value, String::new())
    }

    pub fn entity_key(
        &mut self,
        name: &str,
        direction: BlackboardKeyDirection,
        required: bool,
        default_value: Option<EntityBits>,
    ) -> (id: BlackboardKeyId)
        ensures
            id == BlackboardKeyId(old(self)@.keys.len() as u16),
            final(self)@ == (BuilderView {
                keys: old(self)@.keys.push(
                    new_key(
                        old(self)@.keys.len() as int,
                        name@,
                        BlackboardValueType::Entity,
                        direction,
                        required,
                        match default_value {
                            Some(v) => Some(BlackboardValue::Entity(v)),
                            None => None,
                        },
                        Seq::empty(),
                    ),
                ),
                ..old(self)@
            }),
    {
        let default_value = match default_value {
            Some(v) => Some(BlackboardValue::Entity(v)),
            None => None,
        };
        self.add_key(name.to_owned(), BlackboardValueType::Entity, direction, required, default_value, String::new())
    }

    pub fn vec2_key(
        &mut self,
        name: &str,
        direction: BlackboardKeyDirection,
        required: bool,
        default_value: Option<Vec2Bits>,
    ) -> (id: BlackboardKeyId)
        ensures
            id == BlackboardKeyId(old(self)@.keys.len() as u16),
            final(self)@ == (BuilderView {
                keys: old(self)@.keys.push(
                    new_key(
                        old(self)@.keys.len() as int,
                        name@,
                        BlackboardValueType::Vec2,
                        direction,
                        required,
                        match default_value {
                            Some(v) => Some(BlackboardValue::Vec2(v)),
                            None => None,
                        },
                        Seq::empty(),
                    ),
                ),
                ..old(self)@
            }),
    {
        let default_value = match default_value {
            Some(v) => Some(BlackboardValue::Vec2(v)),
            None => None,
        };
        self.add_key(name.to_owned(), BlackboardValueType::Vec2, direction, required, default_value, String::new())
    }

    pub fn vec3_key(
        &mut self,
        name: &str,
        direction: BlackboardKeyDirection,
        required: bool,
        default_value: Option<Vec3Bits>,
    ) -> (id: BlackboardKeyId)
        ensures
            id == BlackboardKeyId(old(self)@.keys.len() as u16),
            final(self)@ == (BuilderView {
                keys: old(self)@.keys.push(
                    new_key(
                        old(self)@.keys.len() as int,
                        name@,
                        BlackboardValueType::Vec3,
                        direction,
                        required,
                        match default_value {
                            Some(v) => Some(BlackboardValue::Vec3(v)),
                            None => None,
                        },
                        Seq::empty(),
                    ),
                ),
                ..old(self)@
            }),
    {
        let default_value = match default_value {
            Some(v) => Some(BlackboardValue::Vec3(v)),
            None => None,
        };
        self.add_key(name.to_owned(), BlackboardValueType::Vec3, direction, required, default_value, String::new())
    }

    pub fn quat_key(
        &mut self,
        name: &str,
        direction: BlackboardKeyDirection,
        required: bool,
        default_value: Option<QuatBits>,
    ) -> (id: BlackboardKeyId)
        ensures
            id == BlackboardKeyId(old(self)@.keys.len() as u16),
            final(self)@ == (BuilderView {
                keys: old(self)@.keys.push(
                    new_key(
                        old(self)@.keys.len() as int,
                        name@,
                        BlackboardValueType::Quat,
                        direction,
                        required,
                        match default_value {
                            Some(v) => Some(BlackboardValue::Quat(v)),
                            None => None,
                        },
                        Seq::empty(),
                    ),
                ),
                ..old(self)@
            }),
    {
        let default_value = match default_value {
            Some(v) => Some(BlackboardValue::Quat(v)),
            None => None,
        };
        self.add_key(name.to_owned(), BlackboardValueType::Quat, direction, required, default_value, String::new())
    }

    pub fn text_key(
        &mut self,
        name: &str,
        direction: BlackboardKeyDirection,
        required: bool,
        default_value: Option<&str>,
    ) -> (id: BlackboardKeyId)
        ensures
            id == BlackboardKeyId(old(self)@.keys.len() as u16),
            final(self)@.name == old(self)@.name,
            final(self)@.root == old(self)@.root,
            final(self)@.nodes == old(self)@.nodes,
            final(self)@.keys.len() == old(self)@.keys.len() + 1,
            final(self)@.keys.take(old(self)@.keys.len() as int) == old(self)@.keys,
            ({
                let k = final(self)@.keys.last();
                &&& k.id == id
                &&& k.name == name@
                &&& k.value_type == BlackboardValueType::Text
                &&& k.direction == direction
                &&& k.required == required
                &&& k.description == Seq::<char>::empty()
                &&& match default_value {
                    Some(text) => k.default_value matches Some(BlackboardValue::Text(t)) && t@ == text@,
                    None => k.default_value is None,
                }
            }),
    {
        let default_value = match default_value {
            Some(v) => Some(BlackboardValue::Text(v.to_owned())),
            None => None,
        };
        let id = self.add_key(name.to_owned(), BlackboardValueType::Text, direction, required, default_value, String::new());
        proof {
            assert(self@.keys.take(old(self)@.keys.len() as int) =~= old(self)@.keys);
        }
        id
    }

    fn push_node(
        &mut self,
        name: &str,
        kind: NodeKind,
        children: Vec<NodeId>,
        watch_keys: Vec<BlackboardKeyId>,
    ) -> (id: NodeId)
        ensures
            id == NodeId(old(self)@.nodes.len() as u16),
            final(self)@ == (BuilderView {
                nodes: old(self)@.nodes.push(
                    new_node(old(self)@.nodes.len() as int, name@, kind@, children@, watch_keys@),
                ),
                ..old(self)@
            }),
    {
        let id = NodeId(self.nodes.len() as u16);
        let node = NodeDefinition {
            id,
            name: name.to_owned(),
            path: String::new(),
            kind,
            children,
            services: Vec::new(),
            tags: Vec::new(),
            watch_keys,
        };
        proof {
            lemma_push_views(self.nodes@, node);
            assert(crate::definition::service_views(node.services@) =~= Seq::empty());
            assert(crate::definition::text_views(node.tags@) =~= Seq::empty());
        }
        self.nodes.push(node);
        id
    }

    pub fn action(&mut self, name: &str, handler: &str) -> (id: NodeId)
        ensures
            id == NodeId(old(self)@.nodes.len() as u16),
            final(self)@ == (BuilderView {
                nodes: old(self)@.nodes.push(
                    new_node(
                        old(self)@.nodes.len() as int,
                        name@,
                        NodeKindView::Action(handler@),
                        Seq::empty(),
                        Seq::empty(),
                    ),
                ),
                ..old(self)@
            }),
    {
        self.push_node(name, NodeKind::Action(ActionKey(handler.to_owned())), Vec::new(), Vec::new())
    }

    pub fn condition(&mut self, name: &str, handler: &str) -> (id: NodeId)
        ensures
            id == NodeId(old(self)@.nodes.len() as u16),
            final(self)@ == (BuilderView {
                nodes: old(self)@.nodes.push(
                    new_node(
                        old(self)@.nodes.len() as int,
                        name@,
                        NodeKindView::Condition { key: handler@, watch_keys: Seq::empty() },
                        Seq::empty(),
                        Seq::empty(),
                    ),
                ),
                ..old(self)@
            }),
    {
        let none: Vec<BlackboardKeyId> = Vec::new();
        self.condition_with_watch_keys(name, handler, none.as_slice())
    }

    /// A condition leaf that also declares the keys it reads, so that changes
    /// to them wake the tree.
    pub fn condition_with_watch_keys(
        &mut self,
        name: &str,
        handler: &str,
        watch_keys: &[BlackboardKeyId],
    ) -> (id: NodeId)
        ensures
            id == NodeId(old(self)@.nodes.len() as u16),
            final(self)@ == (BuilderView {
                nodes: old(self)@.nodes.push(
                    new_node(
                        old(self)@.nodes.len() as int,
                        name@,
                        NodeKindView::Condition { key: handler@, watch_keys: watch_keys@ },
                        Seq::empty(),
                        watch_keys@,
                    ),
                ),
                ..old(self)@
            }),
    {
        let kind = NodeKind::Condition {
            key: ConditionKey(handler.to_owned()),
            watch_keys: keys_from_slice(watch_keys),
        };
        self.push_node(name, kind, Vec::new(), keys_from_slice(watch_keys))
    }

    fn composite(&mut self, name: &str, kind: NodeKind, children: &[NodeId]) -> (id: NodeId)
        ensures
            id == NodeId(old(self)@.nodes.len() as u16),
            final(self)@ == (BuilderView {
                nodes: old(self)@.nodes.push(
                    new_node(old(self)@.nodes.len() as int, name@, kind@, children@, Seq::empty()),
                ),
                ..old(self)@
            }),
    {
        let children = node_ids_from_slice(children);
        self.push_node(name, kind, children, Vec::new())
    }

    pub fn sequence(&mut self, name: &str, children: &[NodeId]) -> (id: NodeId)
        ensures
            id == NodeId(old(self)@.nodes.len() as u16),
            final(self)@ == (BuilderView {
                nodes: old(self)@.nodes.push(
                    new_node(
                        old(self)@.nodes.len() as int,
                        name@,
                        NodeKindView::Sequence(SequenceKind::Sequence),
                        children@,
                        Seq::empty(),
                    ),
                ),
                ..old(self)@
            }),
    {
        self.composite(name, NodeKind::Sequence(SequenceKind::Sequence), children)
    }

    pub fn sequence_with_memory(&mut self, name: &str, children: &[NodeId]) -> (id: NodeId)
        ensures
            id == NodeId(old(self)@.nodes.len() as u16),
            final(self)@ == (BuilderView {
                nodes: old(self)@.nodes.push(
                    new_node(
                        old(self)@.nodes.len() as int,
                        name@,
                        NodeKindView::Sequence(SequenceKind::SequenceWithMemory),
                        children@,
                        Seq::empty(),
                    ),
                ),
                ..old(self)@
            }),
    {
        self.composite(name, NodeKind::Sequence(SequenceKind::SequenceWithMemory), children)
    }

    pub fn reactive_sequence(&mut self, name: &str, children: &[NodeId]) -> (id: NodeId)
        ensures
            id == NodeId(old(self)@.nodes.len() as u16),
            final(self)@ == (BuilderView {
                nodes: old(self)@.nodes.push(
                    new_node(
                        old(self)@.nodes.len() as int,
                        name@,
                        NodeKindView::Sequence(SequenceKind::ReactiveSequence),
                        children@,
                        Seq::empty(),
                    ),
                ),
                ..old(self)@
            }),
    {
        self.composite(name, NodeKind::Sequence(SequenceKind::ReactiveSequence), children)
    }

    pub fn selector(&mut self, name: &str, children: &[NodeId]) -> (id: NodeId)
        ensures
            id == NodeId(old(self)@.nodes.len() as u16),
            final(self)@ == (BuilderView {
                nodes: old(self)@.nodes.push(
                    new_node(
                        old(self)@.nodes.len() as int,
                        name@,
                        NodeKindView::Selector(SelectorKind::Selector),
                        children@,
                        Seq::empty(),
                    ),
                ),
                ..old(self)@
            }),
    {
        self.composite(name, NodeKind::Selector(SelectorKind::Selector), children)
    }

    pub fn selector_with_memory(&mut self, name: &str, children: &[NodeId]) -> (id: NodeId)
        ensures
            id == NodeId(old(self)@.nodes.len() as u16),
            final(self)@ == (BuilderView {
                nodes: old(self)@.nodes.push(
                    new_node(
                        old(self)@.nodes.len() as int,
                        name@,
                        NodeKindView::Selector(SelectorKind::SelectorWithMemory),
                        children@,
                        Seq::empty(),
                    ),
                ),
                ..old(self)@
            }),
    {
        self.composite(name, NodeKind::Selector(SelectorKind::SelectorWithMemory), children)
    }

    pub fn reactive_selector(
        &mut self,
        name: &str,
        abort_policy: AbortPolicy,
        children: &[NodeId],
    ) -> (id: NodeId)
        ensures
            id == NodeId(old(self)@.nodes.len() as u16),
            final(self)@ == (BuilderView {
                nodes: old(self)@.nodes.push(
                    new_node(
                        old(self)@.nodes.len() as int,
                        name@,
                        NodeKindView::Selector(SelectorKind::ReactiveSelector { abort_policy }),
                        children@,
                        Seq::empty(),
                    ),
                ),
                ..old(self)@
            }),
    {
        self.composite(name, NodeKind::Selector(SelectorKind::ReactiveSelector { abort_policy }), children)
    }

    pub fn parallel(&mut self, name: &str, policy: ParallelPolicy, children: &[NodeId]) -> (id: NodeId)
        ensures
            id == NodeId(old(self)@.nodes.len() as u16),
            final(self)@ == (BuilderView {
                nodes: old(self)@.nodes.push(
                    new_node(
                        old(self)@.nodes.len() as int,
                        name@,
                        NodeKindView::Parallel(policy),
                        children@,
                        Seq::empty(),
                    ),
                ),
                ..old(self)@
            }),
    {
        self.composite(name, NodeKind::Parallel(policy), children)
    }

    /// Appends a decorator over `child`, watching the keys that
    /// `decorator_watch_keys` names.
    pub fn decorator(&mut self, name: &str, decorator: DecoratorKind, child: NodeId) -> (id: NodeId)
        ensures
            id == NodeId(old(self)@.nodes.len() as u16),
            final(self)@ == (BuilderView {
                nodes: old(self)@.nodes.push(
                    new_node(
                        old(self)@.nodes.len() as int,
                        name@,
                        NodeKindView::Decorator(decorator@),
                        seq![child],
                        decorator_watch_keys(decorator@),
                    ),
                ),
                ..old(self)@
            }),
    {
        let mut watch_keys: Vec<BlackboardKeyId> = Vec::new();
        match &decorator {
            DecoratorKind::Guard { watch_keys: keys, .. } => {
                watch_keys = copy_keys(keys);
            },
            DecoratorKind::BlackboardCondition { key, .. } => {
                watch_keys.push(*key);
            },
            _ => {},
        }
        let mut children: Vec<NodeId> = Vec::new();
        children.push(child);
        proof {
            assert(watch_keys@ =~= decorator_watch_keys(decorator@));
            assert(children@ =~= seq![child]);
        }
        self.push_node(name, NodeKind::Decorator(decorator), children, watch_keys)
    }

    pub fn inverter(&mut self, name: &str, child: NodeId) -> (id: NodeId)
        ensures
            final(self)@ == (BuilderView {
                nodes: old(self)@.nodes.push(
                    new_node(
                        old(self)@.nodes.len() as int,
                        name@,
                        NodeKindView::Decorator(DecoratorKindView::Inverter),
                        seq![child],
                        Seq::empty(),
                    ),
                ),
                ..old(self)@
            }),
            id == NodeId(old(self)@.nodes.len() as u16),
    {
        self.decorator(name, DecoratorKind::Inverter, child)
    }

    pub fn repeater(&mut self, name: &str, limit: Option<u32>, child: NodeId) -> (id: NodeId)
        ensures
            final(self)@ == (BuilderView {
                nodes: old(self)@.nodes.push(
                    new_node(
                        old(self)@.nodes.len() as int,
                        name@,
                        NodeKindView::Decorator(DecoratorKindView::Repeater { limit }),
                        seq![child],
                        Seq::empty(),
                    ),
                ),
                ..old(self)@
            }),
            id == NodeId(old(self)@.nodes.len() as u16),
    {
        self.decorator(name, DecoratorKind::Repeater { limit }, child)
    }

    pub fn timeout(&mut self, name: &str, micros: i64, child: NodeId) -> (id: NodeId)
        ensures
            final(self)@ == (BuilderView {
                nodes: old(self)@.nodes.push(
                    new_node(
                        old(self)@.nodes.len() as int,
                        name@,
                        NodeKindView::Decorator(DecoratorKindView::Timeout { micros }),
                        seq![child],
                        Seq::empty(),
                    ),
                ),
                ..old(self)@
            }),
            id == NodeId(old(self)@.nodes.len() as u16),
    {
        self.decorator(name, DecoratorKind::Timeout { micros }, child)
    }

    pub fn cooldown(&mut self, name: &str, micros: i64, child: NodeId) -> (id: NodeId)
        ensures
            final(self)@ == (BuilderView {
                nodes: old(self)@.nodes.push(
                    new_node(
                        old(self)@.nodes.len() as int,
                        name@,
                        NodeKindView::Decorator(DecoratorKindView::Cooldown { micros }),
                        seq![child],
                        Seq::empty(),
                    ),
                ),
                ..old(self)@
            }),
            id == NodeId(old(self)@.nodes.len() as u16),
    {
        self.decorator(name, DecoratorKind::Cooldown { micros }, child)
    }

    pub fn retry(&mut self, name: &str, attempts: u32, child: NodeId) -> (id: NodeId)
        ensures
            final(self)@ == (BuilderView {
                nodes: old(self)@.nodes.push(
                    new_node(
                        old(self)@.nodes.len() as int,
                        name@,
                        NodeKindView::Decorator(DecoratorKindView::Retry { attempts }),
                        seq![child],
                        Seq::empty(),
                    ),
                ),
                ..old(self)@
            }),
            id == NodeId(old(self)@.nodes.len() as u16),
    {
        self.decorator(name, DecoratorKind::Retry { attempts }, child)
    }

    pub fn force_success(&mut self, name: &str, child: NodeId) -> (id: NodeId)
        ensures
            final(self)@ == (BuilderView {
                nodes: old(self)@.nodes.push(
                    new_node(
                        old(self)@.nodes.len() as int,
                        name@,
                        NodeKindView::Decorator(DecoratorKindView::ForceSuccess),
                        seq![child],
                        Seq::empty(),
                    ),
                ),
                ..old(self)@
            }),
            id == NodeId(old(self)@.nodes.len() as u16),
    {
        self.decorator(name, DecoratorKind::ForceSuccess, child)
    }

    pub fn force_failure(&mut self, name: &str, child: NodeId) -> (id: NodeId)
        ensures
            final(self)@ == (BuilderView {
                nodes: old(self)@.nodes.push(
                    new_node(
                        old(self)@.nodes.len() as int,
                        name@,
                        NodeKindView::Decorator(DecoratorKindView::ForceFailure),
                        seq![child],
                        Seq::empty(),
                    ),
                ),
                ..old(self)@
            }),
            id == NodeId(old(self)@.nodes.len() as u16),
    {
        self.decorator(name, DecoratorKind::ForceFailure, child)
    }

    pub fn succeeder(&mut self, name: &str, child: NodeId) -> (id: NodeId)
        ensures
            final(self)@ == (BuilderView {
                nodes: old(self)@.nodes.push(
                    new_node(
                        old(self)@.nodes.len() as int,
                        name@,
                        NodeKindView::Decorator(DecoratorKindView::Succeeder),
                        seq![child],
                        Seq::empty(),
                    ),
                ),
                ..old(self)@
            }),
            id == NodeId(old(self)@.nodes.len() as u16),
    {
        self.decorator(name, DecoratorKind::Succeeder, child)
    }

    pub fn until_success(&mut self, name: &str, limit: Option<u32>, child: NodeId) -> (id: NodeId)
        ensures
            final(self)@ == (BuilderView {
                nodes: old(self)@.nodes.push(
                    new_node(
                        old(self)@.nodes.len() as int,
                        name@,
                        NodeKindView::Decorator(DecoratorKindView::UntilSuccess { limit }),
                        seq![child],
                        Seq::empty(),
                    ),
                ),
                ..old(self)@
            }),
            id == NodeId(old(self)@.nodes.len() as u16),
    {
        self.decorator(name, DecoratorKind::UntilSuccess { limit }, child)
    }

    pub fn until_failure(&mut self, name: &str, limit: Option<u32>, child: NodeId) -> (id: NodeId)
        ensures
            final(self)@ == (BuilderView {
                nodes: old(self)@.nodes.push(
                    new_node(
                        old(self)@.nodes.len() as int,
                        name@,
                        NodeKindView::Decorator(DecoratorKindView::UntilFailure { limit }),
                        seq![child],
                        Seq::empty(),
                    ),
                ),
                ..old(self)@
            }),
            id == NodeId(old(self)@.nodes.len() as u16),
    {
        self.decorator(name, DecoratorKind::UntilFailure { limit }, child)
    }

    pub fn limiter(&mut self, name: &str, limit: u32, child: NodeId) -> (id: NodeId)
        ensures
            final(self)@ == (BuilderView {
                nodes: old(self)@.nodes.push(
                    new_node(
                        old(self)@.nodes.len() as int,
                        name@,
                        NodeKindView::Decorator(DecoratorKindView::Limiter { limit }),
                        seq![child],
                        Seq::empty(),
                    ),
                ),
                ..old(self)@
            }),
            id == NodeId(old(self)@.nodes.len() as u16),
    {
        self.decorator(name, DecoratorKind::Limiter { limit }, child)
    }

    pub fn delay(&mut self, name: &str, micros: i64, child: NodeId) -> (id: NodeId)
        ensures
            final(self)@ == (BuilderView {
                nodes: old(self)@.nodes.push(
                    new_node(
                        old(self)@.nodes.len() as int,
                        name@,
                        NodeKindView::Decorator(DecoratorKindView::Delay { micros }),
                        seq![child],
                        Seq::empty(),
                    ),
                ),
                ..old(self)@
            }),
            id == NodeId(old(self)@.nodes.len() as u16),
    {
        self.decorator(name, DecoratorKind::Delay { micros }, child)
    }

    pub fn run_once(&mut self, name: &str, completed_status: BehaviorStatus, child: NodeId) -> (id: NodeId)
        ensures
            final(self)@ == (BuilderView {
                nodes: old(self)@.nodes.push(
                    new_node(
                        old(self)@.nodes.len() as int,
                        name@,
                        NodeKindView::Decorator(DecoratorKindView::RunOnce { completed_status }),
                        seq![child],
                        Seq::empty(),
                    ),
                ),
                ..old(self)@
            }),
            id == NodeId(old(self)@.nodes.len() as u16),
    {
        self.decorator(name, DecoratorKind::RunOnce { completed_status }, child)
    }

    pub fn guard(
        &mut self,
        name: &str,
        condition: &str,
        abort_policy: AbortPolicy,
        watch_keys: &[BlackboardKeyId],
        child: NodeId,
    ) -> (id: NodeId)
        ensures
            final(self)@ == (BuilderView {
                nodes: old(self)@.nodes.push(
                    new_node(
                        old(self)@.nodes.len() as int,
                        name@,
                        NodeKindView::Decorator(
                            DecoratorKindView::Guard {
                                handler: condition@,
                                abort_policy,
                                watch_keys: watch_keys@,
                            },
                        ),
                        seq![child],
                        watch_keys@,
                    ),
                ),
                ..old(self)@
            }),
            id == NodeId(old(self)@.nodes.len() as u16),
    {
        let decorator = DecoratorKind::Guard {
            condition: ConditionKey(condition.to_owned()),
            abort_policy,
            watch_keys: keys_from_slice(watch_keys),
        };
        self.decorator(name, decorator, child)
    }

    pub fn blackboard_condition(
        &mut self,
        name: &str,
        key: BlackboardKeyId,
        condition: BlackboardCondition,
        abort_policy: AbortPolicy,
        child: NodeId,
    ) -> (id: NodeId)
        ensures
            final(self)@ == (BuilderView {
                nodes: old(self)@.nodes.push(
                    new_node(
                        old(self)@.nodes.len() as int,
                        name@,
                        NodeKindView::Decorator(
                            DecoratorKindView::BlackboardCondition { key, condition, abort_policy },
                        ),
                        seq![child],
                        seq![key],
                    ),
                ),
                ..old(self)@
            }),
            id == NodeId(old(self)@.nodes.len() as u16),
    {
        self.decorator(name, DecoratorKind::BlackboardCondition { key, condition, abort_policy }, child)
    }

    /// Attaches `service` to `node`; an unknown node is ignored.
    pub fn add_service(&mut self, node: NodeId, service: ServiceBinding)
        ensures
            node.0 < old(self)@.nodes.len() ==> final(self)@ == (BuilderView {
                nodes: old(self)@.nodes.update(
                    node.0 as int,
                    NodeView {
                        services: old(self)@.nodes[node.0 as int].services.push(service@),
                        ..old(self)@.nodes[node.0 as int]
                    },
                ),
                ..old(self)@
            }),
            node.0 >= old(self)@.nodes.len() ==> final(self)@ == old(self)@,
    {
        let index = node.0 as usize;
        if index < self.nodes.len() {
            let ghost before = self.nodes@;
            let ghost sv = service@;
            self.nodes[index].services.push(service);
            proof {
                let n = before[index as int];
                assert(crate::definition::service_views(self.nodes@[index as int].services@)
                    =~= crate::definition::service_views(n.services@).push(sv));
                assert(node_views(self.nodes@) =~= node_views(before).update(
                    index as int,
                    NodeView { services: n@.services.push(sv), ..n@ },
                ));
            }
        }
    }

    /// Adds a debug tag to `node`; an unknown node is ignored.
    pub fn add_tag(&mut self, node: NodeId, tag: &str)
        ensures
            node.0 < old(self)@.nodes.len() ==> final(self)@ == (BuilderView {
                nodes: old(self)@.nodes.update(
                    node.0 as int,
                    NodeView {
                        tags: old(self)@.nodes[node.0 as int].tags.push(tag@),
                        ..old(self)@.nodes[node.0 as int]
                    },
                ),
                ..old(self)@
            }),
            node.0 >= old(self)@.nodes.len() ==> final(self)@ == old(self)@,
    {
        let index = node.0 as usize;
        if index < self.nodes.len() {
            let ghost before = self.nodes@;
            self.nodes[index].tags.push(tag.to_owned());
            proof {
                let n = before[index as int];
                assert(crate::definition::text_views(self.nodes@[index as int].tags@)
                    =~= crate::definition::text_views(n.tags@).push(tag@));
                assert(node_views(self.nodes@) =~= node_views(before).update(
                    index as int,
                    NodeView { tags: n@.tags.push(tag@), ..n@ },
                ));
            }
        }
    }

    pub fn set_root(&mut self, node: NodeId)
        ensures
            final(self)@ == (BuilderView { root: Some(node), ..old(self)@ }),
    {
        self.root = Some(node);
    }
}

fn node_ids_from_slice(ids: &[NodeId]) -> (r: Vec<NodeId>)
    ensures
        r@ == ids@,
{
    let mut v: Vec<NodeId> = Vec::new();
    let mut i: usize = 0;
    while i < ids.len()
        invariant
            i <= ids@.len(),
            v@ == ids@.take(i as int),
        decreases ids@.len() - i,
    {
        v.push(ids[i]);
        assert(ids@.take(i + 1) == ids@.take(i as int).push(ids@[i as int]));
        i = i + 1;
    }
    assert(ids@.take(i as int) == ids@);
    v
}

fn copy_keys(keys: &Vec<BlackboardKeyId>) -> (r: Vec<BlackboardKeyId>)
    ensures
        r@ == keys@,
{
    keys_from_slice(keys.as_slice())
}


/// The child graph of a node array.
pub open spec fn graph_of(nodes: Seq<NodeDefinition>) -> Seq<Seq<NodeId>> {
    graph(node_views(nodes))
}

/// How many nodes `c` marks unvisited.
pub open spec fn white_count(c: Seq<u8>) -> nat
    decreases c.len(),
{
    if c.len() == 0 {
        0
    } else {
        white_count(c.drop_last()) + if c.last() == 0 {
            1nat
        } else {
            0nat
        }
    }
}

/// The depth-first search for a cycle, from `node`, with `c` marking each
/// node unvisited (0), on the current path (1) or finished (2): stepping
/// onto a node on the path reports it; a finished node is passed over; an
/// unvisited one is put on the path, its children are searched in order and
/// it is finished. Gives the node reported, if any, and the marks after.
pub open spec fn dfs_visit(g: Seq<Seq<NodeId>>, c: Seq<u8>, node: int) -> (Option<int>, Seq<u8>)
    decreases white_count(c), 0int, 0int,
{
    if !(0 <= node < c.len()) {
        (None, c)
    } else if c[node] == 1 {
        (Some(node), c)
    } else if c[node] != 0 {
        (None, c)
    } else {
        let c1 = c.update(node, 1);
        proof {
            lemma_white_count_update(c, node);
        }
        let (found, c2) = dfs_children(g, c1, node, 0);
        match found {
            Some(x) => (Some(x), c2),
            None => (None, c2.update(node, 2)),
        }
    }
}

/// The search over the children of `node` from position `j` on.
pub open spec fn dfs_children(g: Seq<Seq<NodeId>>, c: Seq<u8>, node: int, j: int) -> (Option<int>, Seq<u8>)
    decreases white_count(c), 1int, g[node].len() - j,
{
    if j < 0 || j >= g[node].len() {
        (None, c)
    } else {
        let (found, c2) = dfs_visit(g, c, g[node][j].0 as int);
        match found {
            Some(x) => (Some(x), c2),
            None => if white_count(c2) <= white_count(c) {
                dfs_children(g, c2, node, j + 1)
            } else {
                (None, c2)
            },
        }
    }
}

/// The node on a cycle that the search from `root`, over a graph with no
/// node visited yet, reports first.
pub open spec fn first_cycle_node(g: Seq<Seq<NodeId>>, root: int) -> Option<int> {
    dfs_visit(g, Seq::new(g.len(), |k: int| 0u8), root).0
}

/// What a search outcome reports.
pub open spec fn reported(r: Result<(), BehaviorTreeBuildError>) -> Option<int> {
    match r {
        Ok(_) => None,
        Err(BehaviorTreeBuildError::CycleDetected(x)) => Some(x.0 as int),
        Err(_) => None,
    }
}

/// Marking an unvisited node leaves fewer unvisited.
pub proof fn lemma_white_count_update(c: Seq<u8>, i: int)
    requires
        0 <= i < c.len(),
        c[i] == 0,
    ensures
        white_count(c.update(i, 1)) < white_count(c),
{
    lemma_white_count_strict(c, c.update(i, 1), i);
}

proof fn lemma_white_count_mono(a: Seq<u8>, b: Seq<u8>)
    requires
        a.len() == b.len(),
        forall|x: int| 0 <= x < a.len() && a[x] != 0 ==> b[x] != 0,
    ensures
        white_count(b) <= white_count(a),
    decreases a.len(),
{
    if a.len() > 0 {
        lemma_white_count_mono(a.drop_last(), b.drop_last());
    }
}

proof fn lemma_white_count_strict(a: Seq<u8>, b: Seq<u8>, i: int)
    requires
        a.len() == b.len(),
        forall|x: int| 0 <= x < a.len() && a[x] != 0 ==> b[x] != 0,
        0 <= i < a.len(),
        a[i] == 0,
        b[i] != 0,
    ensures
        white_count(b) < white_count(a),
    decreases a.len(),
{
    if i == a.len() - 1 {
        lemma_white_count_mono(a.drop_last(), b.drop_last());
    } else {
        lemma_white_count_strict(a.drop_last(), b.drop_last(), i);
    }
}

/// The state of a depth-first search from `root`: colour 0 is unvisited,
/// 1 on the current path `stack`, 2 finished; finished nodes have finished
/// children with smaller finishing numbers, and every visited node is
/// reachable from `root`.
spec fn dfs_inv(g: Seq<Seq<NodeId>>, root: int, c: Seq<u8>, stack: Seq<int>, fin: Seq<nat>, next: nat) -> bool {
    &&& c.len() == g.len()
    &&& fin.len() == g.len()
    &&& 0 <= root < g.len()
    &&& forall|i: int, j: int| 0 <= i < g.len() && 0 <= j < g[i].len() ==> (#[trigger] g[i][j]).0 < g.len()
    &&& forall|x: int| 0 <= x < c.len() ==> #[trigger] c[x] <= 2
    &&& forall|x: int| 0 <= x < c.len() ==> (#[trigger] c[x] == 1 <==> stack.contains(x))
    &&& forall|k: int| 0 <= k < stack.len() ==> 0 <= #[trigger] stack[k] < g.len()
    &&& stack.len() > 0 ==> stack[0] == root
    &&& forall|k: int| 0 <= k < stack.len() - 1 ==> #[trigger] path_step(g, stack, k)
    &&& forall|x: int| 0 <= x < c.len() && #[trigger] c[x] != 0 ==> reachable(g, root, x)
    &&& forall|b: int, j: int|
        0 <= b < g.len() && 0 <= j < g[b].len() && c[b] == 2 ==> c[(#[trigger] g[b][j]).0 as int]
            == 2 && fin[g[b][j].0 as int] < fin[b]
    &&& forall|x: int| 0 <= x < c.len() && c[x] == 2 ==> #[trigger] fin[x] < next
}

spec fn dfs_post(
    g: Seq<Seq<NodeId>>,
    root: int,
    c0: Seq<u8>,
    c1: Seq<u8>,
    stack: Seq<int>,
    fin0: Seq<nat>,
    fin1: Seq<nat>,
    next0: nat,
    next1: nat,
    node: int,
    r: Result<(), BehaviorTreeBuildError>,
) -> bool {
    &&& dfs_visit(g, c0, node) == (reported(r), c1)
    &&& match r {
        Ok(_) => {
            &&& dfs_inv(g, root, c1, stack, fin1, next1)
            &&& c1.len() == c0.len()
            &&& c1[node] == 2
            &&& forall|x: int| 0 <= x < c0.len() ==> (#[trigger] c1[x] == 1) == (c0[x] == 1)
            &&& forall|x: int| 0 <= x < c0.len() && #[trigger] c0[x] == 2 ==> c1[x] == 2 && fin1[x] == fin0[x]
            &&& forall|x: int| 0 <= x < c0.len() && #[trigger] c0[x] != 0 ==> c1[x] != 0
            &&& next1 >= next0
        },
        Err(e) => match e {
            BehaviorTreeBuildError::CycleDetected(x) => {
                &&& x.0 < g.len()
                &&& on_cycle(g, x.0 as int)
                &&& reachable(g, root, x.0 as int)
            },
            _ => false,
        },
    }
}

proof fn lemma_stack_cycle(g: Seq<Seq<NodeId>>, stack: Seq<int>, node: int)
    requires
        forall|k: int| 0 <= k < stack.len() - 1 ==> #[trigger] path_step(g, stack, k),
        stack.contains(node),
        edge(g, stack.last(), node),
    ensures
        on_cycle(g, node),
{
    let k = choose|k: int| 0 <= k < stack.len() && stack[k] == node;
    let tail = stack.subrange(k, stack.len() as int);
    assert forall|m: int| 0 <= m < tail.len() - 1 implies #[trigger] path_step(g, tail, m) by {
        assert(path_step(g, stack, k + m));
        assert(tail[m] == stack[k + m]);
        assert(tail[m + 1] == stack[k + m + 1]);
    }
    assert(is_path(g, tail));
    assert(tail.last() == stack.last());
    crate::definition::lemma_path_push(g, tail, node);
    let q = tail.push(node);
    assert(is_path(g, q) && q.len() >= 2 && q[0] == node && q.last() == node);
}

fn visit_node(
    node: NodeId,
    nodes: &Vec<NodeDefinition>,
    color: &mut Vec<u8>,
    Ghost(root): Ghost<int>,
    Ghost(stack): Ghost<Seq<int>>,
    Ghost(fin): Ghost<Seq<nat>>,
    Ghost(next): Ghost<nat>,
) -> (r: (Result<(), BehaviorTreeBuildError>, Ghost<Seq<nat>>, Ghost<nat>))
    requires
        dfs_inv(graph_of(nodes@), root, old(color)@, stack, fin, next),
        node.0 < nodes@.len(),
        stack.len() == 0 ==> node.0 == root,
        stack.len() > 0 ==> edge(graph_of(nodes@), stack.last(), node.0 as int),
    ensures
        dfs_post(
            graph_of(nodes@),
            root,
            old(color)@,
            final(color)@,
            stack,
            fin,
            r.1@,
            next,
            r.2@,
            node.0 as int,
            r.0,
        ),
    decreases white_count(old(color)@),
{
    let ghost g = graph_of(nodes@);
    let ghost c0 = color@;
    let index = node.0 as usize;
    let current = color[index];
    if current == 1 {
        proof {
            assert(stack.contains(index as int));
            lemma_stack_cycle(g, stack, index as int);
        }
        return (Err(BehaviorTreeBuildError::CycleDetected(node)), Ghost(fin), Ghost(next));
    }
    if current == 2 {
        return (Ok(()), Ghost(fin), Ghost(next));
    }
    color.set(index, 1);
    let ghost c1 = color@;
    proof {
        assert(c1 =~= c0.update(index as int, 1));
    }
    let ghost stack2 = stack.push(index as int);
    proof {
        assert(!stack.contains(index as int));
        assert forall|x: int| 0 <= x < color@.len() implies (#[trigger] color@[x] == 1 <==> stack2.contains(x)) by {
            if x != index {
                assert(stack2.contains(x) <==> stack.contains(x)) by {
                    if stack2.contains(x) {
                        let k = choose|k: int| 0 <= k < stack2.len() && stack2[k] == x;
                        assert(stack[k] == x);
                    }
                    if stack.contains(x) {
                        let k = choose|k: int| 0 <= k < stack.len() && stack[k] == x;
                        assert(stack2[k] == x);
                    }
                }
            } else {
                assert(stack2[stack.len() as int] == x);
            }
        }
        assert forall|k: int| 0 <= k < stack2.len() - 1 implies #[trigger] path_step(g, stack2, k) by {
            if k < stack.len() - 1 {
                assert(path_step(g, stack, k));
            }
        }
        if stack.len() == 0 {
            crate::definition::lemma_path_single(g, root);
        } else {
            assert(stack.contains(stack.last()));
            assert(c0[stack.last()] == 1);
            crate::definition::lemma_reach_step(g, root, stack.last(), index as int);
        }
        assert(dfs_inv(g, root, color@, stack2, fin, next));
        lemma_white_count_strict(c0, color@, index as int);
    }
    let children = &nodes[index].children;
    assert(children@ == g[index as int]);
    let mut j: usize = 0;
    let ghost mut fin_g = fin;
    let ghost mut next_g = next;
    while j < children.len()
        invariant
            g == graph_of(nodes@),
            c0 == old(color)@,
            children@ == g[index as int],
            0 <= index < g.len(),
            j <= children@.len(),
            dfs_inv(g, root, color@, stack2, fin_g, next_g),
            color@.len() == c0.len(),
            color@[index as int] == 1,
            c0[index as int] == 0,
            !stack.contains(index as int),
            stack2 == stack.push(index as int),
            forall|m: int| 0 <= m < j ==> color@[(#[trigger] children@[m]).0 as int] == 2,
            forall|x: int| 0 <= x < c0.len() && x != index ==> (#[trigger] color@[x] == 1) == (c0[x] == 1),
            forall|x: int| 0 <= x < c0.len() && #[trigger] c0[x] == 2 ==> color@[x] == 2 && fin_g[x] == fin[x],
            forall|x: int| 0 <= x < c0.len() && #[trigger] c0[x] != 0 ==> color@[x] != 0,
            next_g >= next,
            white_count(color@) < white_count(c0),
            c1 == c0.update(index as int, 1),
            index == node.0,
            dfs_children(g, c1, index as int, 0) == dfs_children(g, color@, index as int, j as int),
        decreases children@.len() - j,
    {
        let child = children[j];
        proof {
            assert(g[index as int][j as int] == child);
            assert(edge(g, stack2.last(), child.0 as int));
        }
        let ghost before = color@;
        let (res, Ghost(f2), Ghost(n2)) = visit_node(
            child,
            nodes,
            color,
            Ghost(root),
            Ghost(stack2),
            Ghost(fin_g),
            Ghost(next_g),
        );
        proof {
            assert(g[index as int][j as int] == child);
        }
        match res {
            Err(e) => {
                proof {
                    assert(dfs_children(g, before, index as int, j as int) == (reported(res), color@));
                    assert(dfs_children(g, c1, index as int, 0) == (reported(res), color@));
                    assert(reported(res) is Some);
                    assert(0 <= index < c0.len() && c0[index as int] == 0);
                    assert(dfs_visit(g, c0, index as int) == (reported(res), color@));
                }
                return (Err(e), Ghost(f2), Ghost(n2));
            },
            Ok(()) => {},
        }
        proof {
            assert forall|m: int| 0 <= m < j + 1 implies color@[(#[trigger] children@[m]).0 as int] == 2 by {
                if m < j {
                    assert(before[children@[m].0 as int] == 2);
                }
            }
            assert forall|x: int| 0 <= x < c0.len() && #[trigger] c0[x] != 0 implies color@[x] != 0 by {
                assert(before[x] != 0);
            }
            assert forall|x: int| 0 <= x < c0.len() && x != index implies (#[trigger] color@[x] == 1) == (c0[x] == 1) by {
                assert((color@[x] == 1) == (before[x] == 1));
            }
            assert forall|x: int| 0 <= x < c0.len() && #[trigger] c0[x] == 2 implies color@[x] == 2 && f2[x] == fin[x] by {
                assert(before[x] == 2);
            }
            lemma_white_count_mono(before, color@);
            assert(dfs_children(g, before, index as int, j as int) == dfs_children(g, color@, index as int, j + 1));
            fin_g = f2;
            next_g = n2;
        }
        j = j + 1;
    }
    let ghost c_loop = color@;
    proof {
        assert(dfs_children(g, c_loop, index as int, j as int) == (None::<int>, c_loop));
    }
    color.set(index, 2);
    let ghost fin3 = fin_g.update(index as int, next_g);
    proof {
        assert forall|x: int| 0 <= x < color@.len() implies (#[trigger] color@[x] == 1 <==> stack.contains(x)) by {
            if x != index {
                assert(c_loop[x] == 1 <==> stack2.contains(x));
                assert(stack2.contains(x) <==> stack.contains(x)) by {
                    if stack2.contains(x) {
                        let k = choose|k: int| 0 <= k < stack2.len() && stack2[k] == x;
                        if k < stack.len() {
                            assert(stack[k] == x);
                        }
                    }
                    if stack.contains(x) {
                        let k = choose|k: int| 0 <= k < stack.len() && stack[k] == x;
                        assert(stack2[k] == x);
                    }
                }
            }
        }
        assert forall|k: int| 0 <= k < stack.len() - 1 implies #[trigger] path_step(g, stack, k) by {
            assert(path_step(g, stack2, k));
        }
        assert forall|k: int| 0 <= k < stack.len() implies 0 <= #[trigger] stack[k] < g.len() by {
            assert(stack2[k] == stack[k]);
        }
        assert forall|b: int, m: int|
            0 <= b < g.len() && 0 <= m < g[b].len() && color@[b] == 2 implies color@[(#[trigger] g[b][m]).0 as int]
                == 2 && fin3[g[b][m].0 as int] < fin3[b] by {
            let ch = g[b][m].0 as int;
            if b == index {
                assert(children@[m] == g[b][m]);
                assert(c_loop[ch] == 2);
            } else {
                assert(c_loop[b] == 2);
                assert(c_loop[ch] == 2);
            }
        }
        assert forall|x: int| 0 <= x < color@.len() && color@[x] == 2 implies #[trigger] fin3[x] < next_g + 1 by {
            if x != index {
                assert(c_loop[x] == 2);
            }
        }
        assert(dfs_inv(g, root, color@, stack, fin3, next_g + 1));
    }
    (Ok(()), Ghost(fin3), Ghost(next_g + 1))
}


/// A leaf with children.
pub open spec fn leaf_fault(n: NodeView) -> bool {
    n.kind.is_leaf() && n.children.len() != 0
}

/// A decorator without exactly one child.
pub open spec fn decorator_fault(n: NodeView) -> bool {
    n.kind.is_decorator() && n.children.len() != 1
}

/// Position `j` holds the first child id of `n` that is not below `count`.
pub open spec fn first_unknown_child(children: Seq<NodeId>, count: int, j: int) -> bool {
    &&& 0 <= j < children.len()
    &&& children[j].0 >= count
    &&& forall|m: int| 0 <= m < j ==> (#[trigger] children[m]).0 < count
}

pub open spec fn has_unknown_child(children: Seq<NodeId>, count: int) -> bool {
    exists|j: int| 0 <= j < children.len() && (#[trigger] children[j]).0 >= count
}

/// `n` breaks an arity rule or names a child outside a tree of `count` nodes.
pub open spec fn node_faulty(n: NodeView, count: int) -> bool {
    leaf_fault(n) || decorator_fault(n) || has_unknown_child(n.children, count)
}

pub open spec fn faulty(nodes: Seq<NodeView>, i: int) -> bool {
    node_faulty(nodes[i], nodes.len() as int)
}

/// `i` is the first faulty node.
pub open spec fn first_faulty(nodes: Seq<NodeView>, i: int) -> bool {
    &&& 0 <= i < nodes.len()
    &&& faulty(nodes, i)
    &&& forall|k: int| 0 <= k < i ==> !#[trigger] faulty(nodes, k)
}

pub open spec fn fault_free(nodes: Seq<NodeView>) -> bool {
    forall|k: int| 0 <= k < nodes.len() ==> !#[trigger] faulty(nodes, k)
}

/// The error `build` reports for a faulty node `n` at position `i`.
pub open spec fn node_fault_error(n: NodeView, i: int, count: int) -> BuildErrorView {
    children_fault_error(n.kind, n.children, i, count)
}

pub open spec fn children_fault_error(kind: NodeKindView, children: Seq<NodeId>, i: int, count: int) -> BuildErrorView {
    let n = NodeView { id: NodeId(0), name: Seq::empty(), path: Seq::empty(), kind, children, services: Seq::empty(), tags: Seq::empty(), watch_keys: Seq::empty() };
    if leaf_fault(n) {
        BuildErrorView::InvalidChildCount {
            node: NodeId(i as u16),
            expected: "leaf node with 0 children"@,
            found: n.children.len() as usize,
        }
    } else if decorator_fault(n) {
        BuildErrorView::InvalidChildCount {
            node: NodeId(i as u16),
            expected: "decorator with exactly 1 child"@,
            found: n.children.len() as usize,
        }
    } else {
        BuildErrorView::UnknownNode(n.children[choose|j: int| first_unknown_child(n.children, count, j)])
    }
}

pub open spec fn fault_error(nodes: Seq<NodeView>, i: int) -> BuildErrorView {
    node_fault_error(nodes[i], i, nodes.len() as int)
}

/// Node `i` as `build` finalises it: its id is its position and an empty
/// path becomes its name.
pub open spec fn normalized_node(n: NodeView, i: int) -> NodeView {
    NodeView {
        id: NodeId(i as u16),
        path: if n.path.len() == 0 {
            n.name
        } else {
            n.path
        },
        ..n
    }
}

pub open spec fn normalized(nodes: Seq<NodeView>) -> Seq<NodeView> {
    Seq::new(nodes.len(), |i: int| normalized_node(nodes[i], i))
}

/// Every node can be reached from `root`.
pub open spec fn all_reachable(g: Seq<Seq<NodeId>>, root: int) -> bool {
    forall|x: int| 0 <= x < g.len() ==> #[trigger] reachable(g, root, x)
}

/// No node reachable from `root` lies on a cycle.
pub open spec fn no_reachable_cycle(g: Seq<Seq<NodeId>>, root: int) -> bool {
    forall|x: int| 0 <= x < g.len() && #[trigger] reachable(g, root, x) ==> !on_cycle(g, x)
}

/// `n` names `k` among the keys it watches: its own watch list, a
/// condition's or guard's keys, a blackboard condition's key, or a service's
/// watch list.
pub open spec fn watches(n: NodeView, k: BlackboardKeyId) -> bool {
    ||| n.watch_keys.contains(k)
    ||| kind_watches(n.kind, k)
    ||| exists|s: int| 0 <= s < n.services.len() && (#[trigger] n.services[s]).watch_keys.contains(k)
}

/// The node kind itself names `k`: a condition's or guard's keys, or a
/// blackboard condition's key.
pub open spec fn kind_watches(kind: NodeKindView, k: BlackboardKeyId) -> bool {
    match kind {
        NodeKindView::Condition { watch_keys, .. } => watch_keys.contains(k),
        NodeKindView::Decorator(DecoratorKindView::Guard { watch_keys, .. }) => watch_keys.contains(k),
        NodeKindView::Decorator(DecoratorKindView::BlackboardCondition { key, .. }) => key == k,
        _ => false,
    }
}

/// Strictly increasing key ids.
pub open spec fn sorted_unique(keys: Seq<BlackboardKeyId>) -> bool {
    forall|i: int, j: int| 0 <= i < j < keys.len() ==> (#[trigger] keys[i]).0 < (#[trigger] keys[j]).0
}

/// The keys some node of `nodes` watches, sorted and without repeats.
pub open spec fn watched_key_list(nodes: Seq<NodeView>, keys: Seq<BlackboardKeyId>) -> bool {
    &&& sorted_unique(keys)
    &&& forall|k: BlackboardKeyId| #[trigger] keys.contains(k) <==> exists|i: int| 0 <= i < nodes.len() && #[trigger] watches(nodes[i], k)
}

fn insert_sorted(keys: &mut Vec<BlackboardKeyId>, key: BlackboardKeyId)
    requires
        sorted_unique(old(keys)@),
    ensures
        sorted_unique(final(keys)@),
        forall|x: BlackboardKeyId| #[trigger] final(keys)@.contains(x) <==> (old(keys)@.contains(x) || x == key),
{
    let mut i: usize = 0;
    while i < keys.len() && keys[i].0 < key.0
        invariant
            i <= keys@.len(),
            sorted_unique(keys@),
            forall|m: int| 0 <= m < i ==> (#[trigger] keys@[m]).0 < key.0,
        decreases keys@.len() - i,
    {
        i = i + 1;
    }
    if i < keys.len() && keys[i].0 == key.0 {
        assert(keys@[i as int] == key);
        return;
    }
    let ghost before = keys@;
    keys.insert(i, key);
    proof {
        assert forall|a: int, b: int| 0 <= a < b < keys@.len() implies (#[trigger] keys@[a]).0 < (#[trigger] keys@[b]).0 by {
            if b < i {
                assert(keys@[a] == before[a] && keys@[b] == before[b]);
            } else if b == i {
                assert(keys@[a] == before[a]);
            } else if a == i {
                assert(keys@[b] == before[b - 1]);
                assert(before[b - 1].0 >= key.0);
                assert(before[b - 1].0 != key.0 || b - 1 != i) by {
                    if b - 1 == i {
                        assert(before[i as int].0 != key.0);
                    }
                }
                if b - 1 > i {
                    assert(before[i as int].0 < before[b - 1].0);
                    assert(before[i as int].0 >= key.0);
                }
            } else if a < i {
                assert(keys@[a] == before[a] && keys@[b] == before[b - 1]);
            } else {
                assert(keys@[a] == before[a - 1] && keys@[b] == before[b - 1]);
            }
        }
        assert forall|x: BlackboardKeyId| #[trigger] keys@.contains(x) <==> (before.contains(x) || x == key) by {
            if keys@.contains(x) {
                let m = choose|m: int| 0 <= m < keys@.len() && keys@[m] == x;
                if m < i {
                    assert(before[m] == x);
                } else if m > i {
                    assert(before[m - 1] == x);
                }
            }
            if before.contains(x) {
                let m = choose|m: int| 0 <= m < before.len() && before[m] == x;
                if m < i {
                    assert(keys@[m] == x);
                } else {
                    assert(keys@[m + 1] == x);
                }
            }
            if x == key {
                assert(keys@[i as int] == x);
            }
        }
    }
}

fn insert_all(keys: &mut Vec<BlackboardKeyId>, more: &Vec<BlackboardKeyId>)
    requires
        sorted_unique(old(keys)@),
    ensures
        sorted_unique(final(keys)@),
        forall|x: BlackboardKeyId| #[trigger] final(keys)@.contains(x) <==> (old(keys)@.contains(x) || more@.contains(x)),
{
    let ghost start = keys@;
    let mut i: usize = 0;
    while i < more.len()
        invariant
            i <= more@.len(),
            sorted_unique(keys@),
            forall|x: BlackboardKeyId| #[trigger] keys@.contains(x) <==> (start.contains(x) || more@.take(i as int).contains(x)),
        decreases more@.len() - i,
    {
        insert_sorted(keys, more[i]);
        proof {
            assert(more@.take(i + 1) == more@.take(i as int).push(more@[i as int]));
            assert forall|x: BlackboardKeyId| #[trigger] more@.take(i + 1).contains(x) <==> (more@.take(i as int).contains(x) || x == more@[i as int]) by {
                let a = more@.take(i as int);
                let b = a.push(more@[i as int]);
                if b.contains(x) {
                    let m = choose|m: int| 0 <= m < b.len() && #[trigger] b[m] == x;
                    if m < i {
                        assert(a[m] == x);
                    }
                }
                if a.contains(x) {
                    let m = choose|m: int| 0 <= m < a.len() && #[trigger] a[m] == x;
                    assert(b[m] == x);
                }
                if x == more@[i as int] {
                    assert(b[i as int] == x);
                }
            }
        }
        i = i + 1;
    }
    assert(more@.take(i as int) == more@);
}

fn add_watched_keys(keys: &mut Vec<BlackboardKeyId>, node: &NodeDefinition)
    requires
        sorted_unique(old(keys)@),
    ensures
        sorted_unique(final(keys)@),
        forall|x: BlackboardKeyId| #[trigger] final(keys)@.contains(x) <==> (old(keys)@.contains(x) || watches(node@, x)),
{
    let ghost start = keys@;
    insert_all(keys, &node.watch_keys);
    let ghost first = keys@;
    match &node.kind {
        NodeKind::Condition { watch_keys, .. } => {
            insert_all(keys, watch_keys);
        },
        NodeKind::Decorator(DecoratorKind::Guard { watch_keys, .. }) => {
            insert_all(keys, watch_keys);
        },
        NodeKind::Decorator(DecoratorKind::BlackboardCondition { key, .. }) => {
            insert_sorted(keys, *key);
        },
        _ => {},
    }
    let ghost mid = keys@;
    assert(forall|x: BlackboardKeyId| #[trigger] mid.contains(x) <==> (first.contains(x) || kind_watches(node@.kind, x)));
    let mut s: usize = 0;
    while s < node.services.len()
        invariant
            s <= node.services@.len(),
            sorted_unique(keys@),
            forall|x: BlackboardKeyId| #[trigger] keys@.contains(x) <==> (mid.contains(x) || exists|t: int| 0 <= t < s && (#[trigger] node.services@[t]).watch_keys@.contains(x)),
        decreases node.services@.len() - s,
    {
        insert_all(keys, &node.services[s].watch_keys);
        proof {
            assert forall|x: BlackboardKeyId| #[trigger] keys@.contains(x) <==> (mid.contains(x) || exists|t: int| 0 <= t < s + 1 && (#[trigger] node.services@[t]).watch_keys@.contains(x)) by {
                if exists|t: int| 0 <= t < s + 1 && (#[trigger] node.services@[t]).watch_keys@.contains(x) {
                    let t = choose|t: int| 0 <= t < s + 1 && (#[trigger] node.services@[t]).watch_keys@.contains(x);
                    if t < s {
                        assert(exists|t: int| 0 <= t < s && (#[trigger] node.services@[t]).watch_keys@.contains(x));
                    }
                }
            }
        }
        s = s + 1;
    }
    proof {
        assert forall|x: BlackboardKeyId| #[trigger] keys@.contains(x) <==> (start.contains(x) || watches(node@, x)) by {
            let sv = crate::definition::service_views(node.services@);
            assert(node@.services == sv);
            assert(node@.watch_keys == node.watch_keys@);
            let in_services = exists|t: int| 0 <= t < node.services@.len() && (#[trigger] node.services@[t]).watch_keys@.contains(x);
            let in_views = exists|t: int| 0 <= t < sv.len() && (#[trigger] sv[t]).watch_keys.contains(x);
            if in_services {
                let t = choose|t: int| 0 <= t < node.services@.len() && (#[trigger] node.services@[t]).watch_keys@.contains(x);
                assert(sv[t].watch_keys == node.services@[t].watch_keys@);
                assert(in_views);
            }
            if in_views {
                let t = choose|t: int| 0 <= t < sv.len() && (#[trigger] sv[t]).watch_keys.contains(x);
                assert(sv[t].watch_keys == node.services@[t].watch_keys@);
                assert(in_services);
            }
            assert(keys@.contains(x) <==> (mid.contains(x) || in_services));
            assert(mid.contains(x) <==> (first.contains(x) || kind_watches(node@.kind, x)));
            assert(first.contains(x) <==> (start.contains(x) || node.watch_keys@.contains(x)));
            assert(watches(node@, x) <==> (node@.watch_keys.contains(x) || kind_watches(node@.kind, x) || in_views));
        }
    }
}

fn collect_watched_keys(nodes: &Vec<NodeDefinition>) -> (r: Vec<BlackboardKeyId>)
    ensures
        watched_key_list(node_views(nodes@), r@),
{
    let mut keys: Vec<BlackboardKeyId> = Vec::new();
    let ghost nv = node_views(nodes@);
    let mut i: usize = 0;
    while i < nodes.len()
        invariant
            i <= nodes@.len(),
            nv == node_views(nodes@),
            sorted_unique(keys@),
            forall|x: BlackboardKeyId| #[trigger] keys@.contains(x) <==> exists|m: int| 0 <= m < i && #[trigger] watches(nv[m], x),
        decreases nodes@.len() - i,
    {
        add_watched_keys(&mut keys, &nodes[i]);
        proof {
            assert(nv[i as int] == nodes@[i as int]@);
            assert forall|x: BlackboardKeyId| #[trigger] keys@.contains(x) <==> exists|m: int| 0 <= m < i + 1 && #[trigger] watches(nv[m], x) by {
                if exists|m: int| 0 <= m < i + 1 && #[trigger] watches(nv[m], x) {
                    let m = choose|m: int| 0 <= m < i + 1 && #[trigger] watches(nv[m], x);
                    if m < i {
                        assert(exists|m: int| 0 <= m < i && #[trigger] watches(nv[m], x));
                    }
                }
            }
        }
        i = i + 1;
    }
    keys
}


fn check_node(node: &NodeDefinition, index: usize, count: usize) -> (r: Option<BehaviorTreeBuildError>)
    ensures
        r is None <==> !node_faulty(node@, count as int),
        r matches Some(e) ==> e@ == node_fault_error(node@, index as int, count as int),
{
    let leaf = match &node.kind {
        NodeKind::Action(_) | NodeKind::Condition { .. } => true,
        _ => false,
    };
    let decorator = match &node.kind {
        NodeKind::Decorator(_) => true,
        _ => false,
    };
    if leaf && node.children.len() != 0 {
        return Some(
            BehaviorTreeBuildError::InvalidChildCount {
                node: NodeId(index as u16),
                expected: "leaf node with 0 children",
                found: node.children.len(),
            },
        );
    }
    if decorator && node.children.len() != 1 {
        return Some(
            BehaviorTreeBuildError::InvalidChildCount {
                node: NodeId(index as u16),
                expected: "decorator with exactly 1 child",
                found: node.children.len(),
            },
        );
    }
    let mut j: usize = 0;
    while j < node.children.len()
        invariant
            j <= node.children@.len(),
            !leaf_fault(node@),
            !decorator_fault(node@),
            forall|m: int| 0 <= m < j ==> (#[trigger] node.children@[m]).0 < count,
        decreases node.children@.len() - j,
    {
        let child = node.children[j];
        if child.0 as usize >= count {
            proof {
                assert(first_unknown_child(node@.children, count as int, j as int));
                let c = choose|c: int| first_unknown_child(node@.children, count as int, c);
                if c < j {
                    assert(node.children@[c].0 < count);
                } else if c > j {
                    assert(node.children@[j as int].0 < count);
                }
                assert(has_unknown_child(node@.children, count as int));
                assert(!leaf_fault(node@));
                assert(!decorator_fault(node@));
                assert(c == j);
            }
            return Some(BehaviorTreeBuildError::UnknownNode(child));
        }
        j = j + 1;
    }
    None
}

fn normalize_and_check(nodes: &mut Vec<NodeDefinition>) -> (r: Result<(), BehaviorTreeBuildError>)
    ensures
        r is Ok <==> fault_free(node_views(old(nodes)@)),
        r matches Err(e) ==> exists|i: int| first_faulty(node_views(old(nodes)@), i) && e@ == fault_error(node_views(old(nodes)@), i),
        r is Ok ==> node_views(final(nodes)@) == normalized(node_views(old(nodes)@)),
{
    let ghost nv = node_views(nodes@);
    let count = nodes.len();
    let mut index: usize = 0;
    while index < count
        invariant
            count == nodes@.len(),
            nv == node_views(old(nodes)@),
            nv.len() == count,
            index <= count,
            forall|k: int| 0 <= k < index ==> !#[trigger] faulty(nv, k),
            forall|k: int| 0 <= k < index ==> (#[trigger] nodes@[k])@ == normalized_node(nv[k], k),
            forall|k: int| index <= k < count ==> (#[trigger] nodes@[k])@ == nv[k],
        decreases count - index,
    {
        let ghost before = nodes@;
        nodes[index].id = NodeId(index as u16);
        if nodes[index].path.as_str().is_empty() {
            let name = nodes[index].name.clone();
            nodes[index].path = name;
        }
        proof {
            assert(nodes@[index as int]@ == normalized_node(nv[index as int], index as int));
            assert forall|k: int| 0 <= k < count && k != index implies (#[trigger] nodes@[k]) == before[k] by {}
        }
        match check_node(&nodes[index], index, count) {
            Some(e) => {
                proof {
                    let cur = nodes@[index as int]@;
                    assert(cur.children == nv[index as int].children);
                    assert(cur.kind == nv[index as int].kind);
                    assert(node_faulty(cur, count as int) == node_faulty(nv[index as int], count as int));
                    assert(node_fault_error(cur, index as int, count as int) == node_fault_error(nv[index as int], index as int, count as int));
                    assert(first_faulty(nv, index as int));
                }
                return Err(e);
            },
            None => {},
        }
        index = index + 1;
    }
    assert(node_views(nodes@) =~= normalized(nv));
    Ok(())
}


/// `i` is the first node not reachable from `root`.
pub open spec fn first_unreachable(g: Seq<Seq<NodeId>>, root: int, i: int) -> bool {
    &&& 0 <= i < g.len()
    &&& !reachable(g, root, i)
    &&& forall|y: int| 0 <= y < i ==> #[trigger] reachable(g, root, y)
}

proof fn lemma_finished_path(g: Seq<Seq<NodeId>>, root: int, c: Seq<u8>, fin: Seq<nat>, next: nat, p: Seq<int>)
    requires
        dfs_inv(g, root, c, Seq::empty(), fin, next),
        is_path(g, p),
        0 <= p[0] < g.len(),
        c[p[0]] == 2,
    ensures
        0 <= p.last() < g.len(),
        c[p.last()] == 2,
        p.len() >= 2 ==> fin[p.last()] < fin[p[0]],
    decreases p.len(),
{
    if p.len() >= 2 {
        let q = p.drop_last();
        assert forall|k: int| 0 <= k < q.len() - 1 implies #[trigger] path_step(g, q, k) by {
            assert(path_step(g, p, k));
        }
        lemma_finished_path(g, root, c, fin, next, q);
        assert(path_step(g, p, p.len() - 2));
        let a = p[p.len() - 2];
        assert(q.last() == a);
        let j = choose|j: int| 0 <= j < g[a].len() && (#[trigger] g[a][j]).0 == p.last();
        assert(g[a][j].0 == p.last());
    }
}

proof fn lemma_finished_closure(g: Seq<Seq<NodeId>>, root: int, c: Seq<u8>, fin: Seq<nat>, next: nat)
    requires
        dfs_inv(g, root, c, Seq::empty(), fin, next),
        c[root] == 2,
    ensures
        forall|x: int| 0 <= x < g.len() && #[trigger] reachable(g, root, x) ==> c[x] == 2 && !on_cycle(g, x),
        forall|x: int| 0 <= x < g.len() ==> (#[trigger] c[x] == 0 <==> !reachable(g, root, x)),
{
    assert forall|x: int| 0 <= x < g.len() && #[trigger] reachable(g, root, x) implies c[x] == 2 && !on_cycle(g, x) by {
        let p = choose|p: Seq<int>| #[trigger] is_path(g, p) && p[0] == root && p.last() == x;
        lemma_finished_path(g, root, c, fin, next, p);
        if on_cycle(g, x) {
            let q = choose|q: Seq<int>| #[trigger] is_path(g, q) && q.len() >= 2 && q[0] == x && q.last() == x;
            lemma_finished_path(g, root, c, fin, next, q);
        }
    }
    assert forall|x: int| 0 <= x < g.len() implies (#[trigger] c[x] == 0 <==> !reachable(g, root, x)) by {
        if c[x] != 0 {
            assert(reachable(g, root, x));
        }
    }
}

impl BehaviorTreeBuilder {
    /// Finalises the definition: every node gets its position as id and, if
    /// its path is empty, its name as path; then the tree is validated (a
    /// root is set; leaves have no children, decorators one, every child
    /// exists; no cycle is reachable from the root; every node is reachable)
    /// and the keys that any node watches are collected, sorted.
    pub fn build(self) -> (r: Result<BehaviorTreeDefinition, BehaviorTreeBuildError>)
        requires
            self@.root is Some && fault_free(self@.nodes) ==> (self@.root->0).0 < self@.nodes.len(),
        ensures
            self@.root is None ==> (r matches Err(e) && e@ == BuildErrorView::MissingRoot),
            self@.root is Some && !fault_free(self@.nodes) ==> (r matches Err(e) && exists|i: int|
                first_faulty(self@.nodes, i) && e@ == fault_error(self@.nodes, i)),
            self@.root is Some && fault_free(self@.nodes) ==> built(self@, r),
            self@.root is Some && fault_free(self@.nodes) && all_reachable(
                graph(self@.nodes),
                (self@.root->0).0 as int,
            ) && no_reachable_cycle(graph(self@.nodes), (self@.root->0).0 as int) ==> r is Ok,
    {
        let ghost start = self@;
        let root = match self.root {
            Some(root) => root,
            None => {
                return Err(BehaviorTreeBuildError::MissingRoot);
            },
        };
        let mut nodes = self.nodes;
        match normalize_and_check(&mut nodes) {
            Err(e) => {
                return Err(e);
            },
            Ok(()) => {},
        }
        let ghost g = graph_of(nodes@);
        proof {
            assert(g =~= graph(start.nodes));
        }
        let count = nodes.len();
        let mut color: Vec<u8> = Vec::new();
        let mut i: usize = 0;
        while i < count
            invariant
                i <= count,
                color@ == Seq::new(i as nat, |k: int| 0u8),
            decreases count - i,
        {
            color.push(0);
            assert(color@ =~= Seq::new((i + 1) as nat, |k: int| 0u8));
            i = i + 1;
        }
        let ghost fin0 = Seq::new(count as nat, |k: int| 0nat);
        proof {
            assert(g.len() == count);
            assert forall|a: int, b: int| 0 <= a < g.len() && 0 <= b < g[a].len() implies (#[trigger] g[a][b]).0 < g.len() by {
                assert(!faulty(start.nodes, a));
                assert(g[a] == start.nodes[a].children);
                if g[a][b].0 >= g.len() {
                    assert(has_unknown_child(start.nodes[a].children, start.nodes.len() as int));
                }
            }
            assert forall|x: int| 0 <= x < color@.len() implies (#[trigger] color@[x] == 1 <==> Seq::<int>::empty().contains(x)) by {
                assert(color@[x] == 0);
            }
            assert(dfs_inv(g, root.0 as int, color@, Seq::empty(), fin0, 0));
        }
        let (res, Ghost(fin), Ghost(next)) = visit_node(
            root,
            &nodes,
            &mut color,
            Ghost(root.0 as int),
            Ghost(Seq::empty()),
            Ghost(fin0),
            Ghost(0),
        );
        match res {
            Err(e) => {
                return Err(e);
            },
            Ok(()) => {},
        }
        proof {
            lemma_finished_closure(g, root.0 as int, color@, fin, next);
            assert(no_reachable_cycle(g, root.0 as int));
        }
        let mut k: usize = 0;
        while k < count
            invariant
                k <= count,
                color@.len() == count,
                g.len() == count,
                g == graph(start.nodes),
                start == self@,
                start.root == Some(root),
                fault_free(start.nodes),
                no_reachable_cycle(g, root.0 as int),
                forall|y: int| 0 <= y < k ==> #[trigger] color@[y] != 0,
                forall|x: int| 0 <= x < g.len() ==> (#[trigger] color@[x] == 0 <==> !reachable(g, root.0 as int, x)),
            decreases count - k,
        {
            if color[k] == 0 {
                proof {
                    assert forall|y: int| 0 <= y < k implies #[trigger] reachable(g, root.0 as int, y) by {
                        assert(color@[y] != 0);
                    }
                    assert(first_unreachable(g, root.0 as int, k as int));
                }
                let e = BehaviorTreeBuildError::UnreachableNode(NodeId(k as u16));
                proof {
                    assert(e@ == BuildErrorView::UnreachableNode(NodeId(k as u16)));
                    assert(exists|i: int| first_unreachable(g, root.0 as int, i) && NodeId(k as u16) == NodeId(i as u16));
                    let rr: Result<BehaviorTreeDefinition, BehaviorTreeBuildError> = Err(e);
                    assert(start.root->0 == root);
                    assert(graph(start.nodes) == g);
                    assert(no_reachable_cycle(graph(start.nodes), (start.root->0).0 as int));
                    assert(built(start, rr));
                }
                return Err(e);
            }
            k = k + 1;
        }
        proof {
            assert forall|x: int| 0 <= x < g.len() implies #[trigger] reachable(g, root.0 as int, x) by {
                assert(color@[x] != 0);
            }
            assert forall|x: int| 0 <= x < color@.len() implies #[trigger] color@[x] == 2 by {
                assert(color@[x] != 0);
                assert(color@[x] != 1);
            }
            assert(crate::definition::ranked_by(g, fin));
            let norm = normalized(start.nodes);
            assert forall|x: int| 0 <= x < norm.len() implies {
                &&& ((#[trigger] norm[x]).kind.is_leaf() ==> norm[x].children.len() == 0)
                &&& (norm[x].kind.is_decorator() ==> norm[x].children.len() == 1)
            } by {
                assert(!faulty(start.nodes, x));
            }
            assert(crate::definition::arity_ok(norm));
        }
        let watched_keys = collect_watched_keys(&nodes);
        proof {
            let nv = node_views(nodes@);
            assert forall|key: BlackboardKeyId| #[trigger] watched_keys@.contains(key)
                <==> (exists|m: int| 0 <= m < start.nodes.len() && #[trigger] watches(start.nodes[m], key)) by {
                if exists|m: int| 0 <= m < nv.len() && #[trigger] watches(nv[m], key) {
                    let m = choose|m: int| 0 <= m < nv.len() && #[trigger] watches(nv[m], key);
                    assert(watches(start.nodes[m], key));
                }
                if exists|m: int| 0 <= m < start.nodes.len() && #[trigger] watches(start.nodes[m], key) {
                    let m = choose|m: int| 0 <= m < start.nodes.len() && #[trigger] watches(start.nodes[m], key);
                    assert(nv[m] == normalized_node(start.nodes[m], m));
                    assert(nv[m].services == start.nodes[m].services);
                    assert(nv[m].kind == start.nodes[m].kind);
                    assert(nv[m].watch_keys == start.nodes[m].watch_keys);
                    assert(watches(nv[m], key));
                }
            }
        }
        Ok(
            BehaviorTreeDefinition {
                name: self.name,
                root,
                nodes,
                blackboard_schema: self.blackboard_schema,
                watched_keys,
            },
        )
    }
}

/// The outcome of `build` on a builder with a root and fault-free nodes:
/// the finalised definition, or the cycle or unreachable node it found.
pub open spec fn built(b: BuilderView, r: Result<BehaviorTreeDefinition, BehaviorTreeBuildError>) -> bool {
    let g = graph(b.nodes);
    let root = b.root->0;
    match r {
        Ok(d) => {
            &&& d@ == (DefinitionView {
                name: b.name,
                root,
                nodes: normalized(b.nodes),
                keys: b.keys,
                watched_keys: d@.watched_keys,
            })
            &&& watched_key_list(b.nodes, d@.watched_keys)
            &&& all_reachable(g, root.0 as int)
            &&& d@.executable()
        },
        Err(e) => match e@ {
            BuildErrorView::CycleDetected(x) => {
                &&& x.0 < g.len()
                &&& reachable(g, root.0 as int, x.0 as int)
                &&& on_cycle(g, x.0 as int)
                &&& first_cycle_node(g, root.0 as int) == Some(x.0 as int)
            },
            BuildErrorView::UnreachableNode(x) => {
                &&& no_reachable_cycle(g, root.0 as int)
                &&& exists|i: int| first_unreachable(g, root.0 as int, i) && x == NodeId(i as u16)
            },
            _ => false,
        },
    }
}



/// The remaps as (local name, target key) pairs.
pub open spec fn remap_pairs(remaps: Seq<SubtreeRemap>) -> Seq<(Seq<char>, BlackboardKeyId)> {
    remaps.map_values(|r: SubtreeRemap| (r.local_key@, r.target_key))
}

/// `i` is the last pair whose first component is `k`.
pub open spec fn last_with<K, V>(pairs: Seq<(K, V)>, k: K, i: int) -> bool {
    &&& 0 <= i < pairs.len()
    &&& pairs[i].0 == k
    &&& forall|j: int| i < j < pairs.len() ==> (#[trigger] pairs[j]).0 != k
}

/// The value of the last pair for `k`, as a map built by inserting the
/// pairs in order would hold it.
pub open spec fn lookup_last<K, V>(pairs: Seq<(K, V)>, k: K) -> Option<V> {
    if exists|i: int| last_with(pairs, k, i) {
        Some(pairs[choose|i: int| last_with(pairs, k, i)].1)
    } else {
        None
    }
}

proof fn lemma_last_with_unique<K, V>(pairs: Seq<(K, V)>, k: K, i: int, j: int)
    requires
        last_with(pairs, k, i),
        last_with(pairs, k, j),
    ensures
        i == j,
{
    if i < j {
        assert(pairs[j].0 != k);
    } else if j < i {
        assert(pairs[i].0 != k);
    }
}

/// The state of the key pass of `inline_subtree`: the builder's keys, the
/// subtree-to-tree key pairs so far, and the error that stopped it, if any.
pub struct KeyPass {
    pub keys: Seq<BlackboardKeyView>,
    pub map: Seq<(BlackboardKeyId, BlackboardKeyId)>,
    pub error: Option<BuildErrorView>,
}

/// The key pass over the first `n` subtree keys: a remapped key must name an
/// existing key of the same type; any other key is copied as a local key
/// named `prefix.name`.
pub open spec fn key_pass(
    keys0: Seq<BlackboardKeyView>,
    sub: Seq<BlackboardKeyView>,
    remaps: Seq<(Seq<char>, BlackboardKeyId)>,
    prefix: Seq<char>,
    n: nat,
) -> KeyPass
    decreases n,
{
    if n == 0 {
        KeyPass { keys: keys0, map: Seq::empty(), error: None }
    } else {
        let p = key_pass(keys0, sub, remaps, prefix, (n - 1) as nat);
        let k = sub[n - 1];
        if p.error is Some {
            p
        } else {
            match lookup_last(remaps, k.name) {
                Some(t) => if t.0 >= p.keys.len() {
                    KeyPass { error: Some(BuildErrorView::UnknownSubtreeKey(k.name)), ..p }
                } else if p.keys[t.0 as int].value_type != k.value_type {
                    KeyPass {
                        error: Some(
                            BuildErrorView::RemappedKeyTypeMismatch {
                                subtree_key: k.name,
                                subtree_type: k.value_type,
                                target_type: p.keys[t.0 as int].value_type,
                            },
                        ),
                        ..p
                    }
                } else {
                    KeyPass { map: p.map.push((k.id, t)), ..p }
                },
                None => KeyPass {
                    keys: p.keys.push(
                        new_key(
                            p.keys.len() as int,
                            prefix + "."@ + k.name,
                            k.value_type,
                            BlackboardKeyDirection::Local,
                            k.required,
                            k.default_value,
                            k.description,
                        ),
                    ),
                    map: p.map.push((k.id, BlackboardKeyId(p.keys.len() as u16))),
                    error: None,
                },
            }
        }
    }
}

/// A key looked up in `map`, unchanged when `map` has no entry.
pub open spec fn remap_key(map: Seq<(BlackboardKeyId, BlackboardKeyId)>, k: BlackboardKeyId) -> BlackboardKeyId {
    match lookup_last(map, k) {
        Some(t) => t,
        None => k,
    }
}

pub open spec fn remap_keys(map: Seq<(BlackboardKeyId, BlackboardKeyId)>, keys: Seq<BlackboardKeyId>) -> Seq<BlackboardKeyId> {
    keys.map_values(|k: BlackboardKeyId| remap_key(map, k))
}

/// A node kind with its blackboard keys looked up in `map`.
pub open spec fn remap_kind(map: Seq<(BlackboardKeyId, BlackboardKeyId)>, kind: NodeKindView) -> NodeKindView {
    match kind {
        NodeKindView::Condition { key, watch_keys } => NodeKindView::Condition {
            key,
            watch_keys: remap_keys(map, watch_keys),
        },
        NodeKindView::Decorator(DecoratorKindView::Guard { handler, abort_policy, watch_keys }) =>
            NodeKindView::Decorator(
            DecoratorKindView::Guard { handler, abort_policy, watch_keys: remap_keys(map, watch_keys) },
        ),
        NodeKindView::Decorator(DecoratorKindView::BlackboardCondition { key, condition, abort_policy }) =>
            NodeKindView::Decorator(
            DecoratorKindView::BlackboardCondition {
                key: lookup_last(map, key)->0,
                condition,
                abort_policy,
            },
        ),
        _ => kind,
    }
}

pub open spec fn remap_service(
    map: Seq<(BlackboardKeyId, BlackboardKeyId)>,
    s: crate::nodes::ServiceBindingView,
) -> crate::nodes::ServiceBindingView {
    crate::nodes::ServiceBindingView { watch_keys: remap_keys(map, s.watch_keys), ..s }
}

/// Every blackboard-condition key of the subtree has an entry in the map.
pub open spec fn condition_keys_mapped(nodes: Seq<NodeView>, map: Seq<(BlackboardKeyId, BlackboardKeyId)>) -> bool {
    forall|i: int|
        0 <= i < nodes.len() ==> match (#[trigger] nodes[i]).kind {
            NodeKindView::Decorator(DecoratorKindView::BlackboardCondition { key, .. }) => lookup_last(
                map,
                key,
            ) is Some,
            _ => true,
        }
}

/// The ids of the subtree's nodes, paired with their positions.
pub open spec fn id_pairs(nodes: Seq<NodeView>) -> Seq<(NodeId, int)> {
    Seq::new(nodes.len(), |i: int| (nodes[i].id, i))
}

/// Every child id and the root name some node of the subtree.
pub open spec fn ids_resolve(nodes: Seq<NodeView>, root: NodeId) -> bool {
    &&& lookup_last(id_pairs(nodes), root) is Some
    &&& forall|i: int, j: int|
        0 <= i < nodes.len() && 0 <= j < nodes[i].children.len() ==> lookup_last(
            id_pairs(nodes),
            #[trigger] nodes[i].children[j],
        ) is Some
}

/// Where a subtree node id lands once the subtree's nodes are appended after
/// `base` nodes.
pub open spec fn placed(nodes: Seq<NodeView>, base: int, id: NodeId) -> NodeId {
    NodeId((base + lookup_last(id_pairs(nodes), id)->0) as u16)
}

/// Subtree node `n` at position `i`, copied behind `base` nodes under
/// `prefix`.
pub open spec fn inlined_node(
    nodes: Seq<NodeView>,
    base: int,
    prefix: Seq<char>,
    map: Seq<(BlackboardKeyId, BlackboardKeyId)>,
    i: int,
) -> NodeView {
    let n = nodes[i];
    NodeView {
        id: NodeId((base + i) as u16),
        name: prefix + "/"@ + n.name,
        path: prefix + "/"@ + n.path,
        kind: remap_kind(map, n.kind),
        children: n.children.map_values(|c: NodeId| placed(nodes, base, c)),
        services: n.services.map_values(|s: crate::nodes::ServiceBindingView| remap_service(map, s)),
        tags: n.tags,
        watch_keys: remap_keys(map, n.watch_keys),
    }
}


proof fn lemma_key_pass_error_persists(
    keys0: Seq<BlackboardKeyView>,
    sub: Seq<BlackboardKeyView>,
    remaps: Seq<(Seq<char>, BlackboardKeyId)>,
    prefix: Seq<char>,
    m: nat,
    n: nat,
)
    requires
        m <= n,
        key_pass(keys0, sub, remaps, prefix, m).error is Some,
    ensures
        key_pass(keys0, sub, remaps, prefix, n) == key_pass(keys0, sub, remaps, prefix, m),
    decreases n - m,
{
    if m < n {
        lemma_key_pass_error_persists(keys0, sub, remaps, prefix, m, (n - 1) as nat);
    }
}

fn find_remap(remaps: &[SubtreeRemap], name: &String) -> (r: Option<BlackboardKeyId>)
    ensures
        r == lookup_last(remap_pairs(remaps@), name@),
{
    let ghost pairs = remap_pairs(remaps@);
    let mut i: usize = remaps.len();
    while i > 0
        invariant
            i <= remaps@.len(),
            pairs == remap_pairs(remaps@),
            forall|j: int| i <= j < pairs.len() ==> (#[trigger] pairs[j]).0 != name@,
        decreases i,
    {
        i = i - 1;
        if crate::text::same_text(remaps[i].local_key.as_str(), name.as_str()) {
            proof {
                assert(last_with(pairs, name@, i as int));
                let c = choose|c: int| last_with(pairs, name@, c);
                lemma_last_with_unique(pairs, name@, i as int, c);
            }
            return Some(remaps[i].target_key);
        }
    }
    None
}

fn lookup_key(map: &Vec<(BlackboardKeyId, BlackboardKeyId)>, k: BlackboardKeyId) -> (r: Option<BlackboardKeyId>)
    ensures
        r == lookup_last(map@, k),
{
    let mut i: usize = map.len();
    while i > 0
        invariant
            i <= map@.len(),
            forall|j: int| i <= j < map@.len() ==> (#[trigger] map@[j]).0 != k,
        decreases i,
    {
        i = i - 1;
        if map[i].0 == k {
            proof {
                assert(last_with(map@, k, i as int));
                let c = choose|c: int| last_with(map@, k, c);
                lemma_last_with_unique(map@, k, i as int, c);
            }
            return Some(map[i].1);
        }
    }
    None
}

fn remap_watch_keys(keys: &Vec<BlackboardKeyId>, map: &Vec<(BlackboardKeyId, BlackboardKeyId)>) -> (r: Vec<BlackboardKeyId>)
    ensures
        r@ == remap_keys(map@, keys@),
{
    let mut out: Vec<BlackboardKeyId> = Vec::new();
    let mut i: usize = 0;
    while i < keys.len()
        invariant
            i <= keys@.len(),
            out@ == remap_keys(map@, keys@.take(i as int)),
        decreases keys@.len() - i,
    {
        let k = keys[i];
        let t = match lookup_key(map, k) {
            Some(t) => t,
            None => k,
        };
        out.push(t);
        assert(remap_keys(map@, keys@.take(i + 1)) =~= remap_keys(map@, keys@.take(i as int)).push(t));
        i = i + 1;
    }
    assert(keys@.take(i as int) == keys@);
    out
}

fn remap_node_kind(kind: &NodeKind, map: &Vec<(BlackboardKeyId, BlackboardKeyId)>) -> (r: NodeKind)
    requires
        kind@ matches NodeKindView::Decorator(DecoratorKindView::BlackboardCondition { key, .. }) ==> lookup_last(
            map@,
            key,
        ) is Some,
    ensures
        r@ == remap_kind(map@, kind@),
{
    match kind {
        NodeKind::Sequence(k) => NodeKind::Sequence(*k),
        NodeKind::Selector(k) => NodeKind::Selector(*k),
        NodeKind::Parallel(p) => NodeKind::Parallel(*p),
        NodeKind::Action(key) => NodeKind::Action(key.clone()),
        NodeKind::Condition { key, watch_keys } => NodeKind::Condition {
            key: key.clone(),
            watch_keys: remap_watch_keys(watch_keys, map),
        },
        NodeKind::Decorator(d) => NodeKind::Decorator(
            match d {
                DecoratorKind::Inverter => DecoratorKind::Inverter,
                DecoratorKind::Repeater { limit } => DecoratorKind::Repeater { limit: *limit },
                DecoratorKind::Timeout { micros } => DecoratorKind::Timeout { micros: *micros },
                DecoratorKind::Cooldown { micros } => DecoratorKind::Cooldown { micros: *micros },
                DecoratorKind::Retry { attempts } => DecoratorKind::Retry { attempts: *attempts },
                DecoratorKind::ForceSuccess => DecoratorKind::ForceSuccess,
                DecoratorKind::ForceFailure => DecoratorKind::ForceFailure,
                DecoratorKind::Succeeder => DecoratorKind::Succeeder,
                DecoratorKind::UntilSuccess { limit } => DecoratorKind::UntilSuccess { limit: *limit },
                DecoratorKind::UntilFailure { limit } => DecoratorKind::UntilFailure { limit: *limit },
                DecoratorKind::Limiter { limit } => DecoratorKind::Limiter { limit: *limit },
                DecoratorKind::Guard { condition, abort_policy, watch_keys } => DecoratorKind::Guard {
                    condition: condition.clone(),
                    abort_policy: *abort_policy,
                    watch_keys: remap_watch_keys(watch_keys, map),
                },
                DecoratorKind::Delay { micros } => DecoratorKind::Delay { micros: *micros },
                DecoratorKind::RunOnce { completed_status } => DecoratorKind::RunOnce {
                    completed_status: *completed_status,
                },
                DecoratorKind::BlackboardCondition { key, condition, abort_policy } => {
                    let target = match lookup_key(map, *key) {
                        Some(t) => t,
                        None => *key,
                    };
                    DecoratorKind::BlackboardCondition {
                        key: target,
                        condition: condition.clone(),
                        abort_policy: *abort_policy,
                    }
                },
            },
        ),
    }
}

fn remap_services(services: &Vec<ServiceBinding>, map: &Vec<(BlackboardKeyId, BlackboardKeyId)>) -> (r: Vec<ServiceBinding>)
    ensures
        crate::definition::service_views(r@) == crate::definition::service_views(services@).map_values(
            |s: crate::nodes::ServiceBindingView| remap_service(map@, s),
        ),
{
    let mut out: Vec<ServiceBinding> = Vec::new();
    let mut i: usize = 0;
    while i < services.len()
        invariant
            i <= services@.len(),
            out@.len() == i,
            forall|m: int| 0 <= m < i ==> (#[trigger] out@[m])@ == remap_service(map@, services@[m]@),
        decreases services@.len() - i,
    {
        let s = &services[i];
        out.push(
            ServiceBinding {
                name: s.name.clone(),
                key: s.key.clone(),
                interval_micros: s.interval_micros,
                start_immediately: s.start_immediately,
                wake_on_change: s.wake_on_change,
                watch_keys: remap_watch_keys(&s.watch_keys, map),
            },
        );
        i = i + 1;
    }
    assert(crate::definition::service_views(out@) =~= crate::definition::service_views(services@).map_values(
        |s: crate::nodes::ServiceBindingView| remap_service(map@, s),
    ));
    out
}

fn find_position(nodes: &Vec<NodeDefinition>, id: NodeId) -> (r: Option<usize>)
    ensures
        match lookup_last(id_pairs(node_views(nodes@)), id) {
            Some(p) => r == Some(p as usize),
            None => r is None,
        },
{
    let ghost pairs = id_pairs(node_views(nodes@));
    let mut i: usize = nodes.len();
    while i > 0
        invariant
            i <= nodes@.len(),
            pairs == id_pairs(node_views(nodes@)),
            forall|j: int| i <= j < pairs.len() ==> (#[trigger] pairs[j]).0 != id,
        decreases i,
    {
        i = i - 1;
        if nodes[i].id == id {
            proof {
                assert(pairs[i as int] == (id, i as int));
                assert(last_with(pairs, id, i as int));
                let c = choose|c: int| last_with(pairs, id, c);
                lemma_last_with_unique(pairs, id, i as int, c);
            }
            return Some(i);
        }
    }
    None
}

fn place_children(
    nodes: &Vec<NodeDefinition>,
    base: usize,
    children: &Vec<NodeId>,
) -> (r: Vec<NodeId>)
    requires
        base + nodes@.len() <= usize::MAX,
        forall|j: int| 0 <= j < children@.len() ==> lookup_last(
            id_pairs(node_views(nodes@)),
            #[trigger] children@[j],
        ) is Some,
    ensures
        r@ == children@.map_values(|c: NodeId| placed(node_views(nodes@), base as int, c)),
{
    let mut out: Vec<NodeId> = Vec::new();
    let mut i: usize = 0;
    while i < children.len()
        invariant
            i <= children@.len(),
            base + nodes@.len() <= usize::MAX,
            forall|j: int| 0 <= j < children@.len() ==> lookup_last(
                id_pairs(node_views(nodes@)),
                #[trigger] children@[j],
            ) is Some,
            out@ == children@.take(i as int).map_values(|c: NodeId| placed(node_views(nodes@), base as int, c)),
        decreases children@.len() - i,
    {
        let c = children[i];
        assert(lookup_last(id_pairs(node_views(nodes@)), children@[i as int]) is Some);
        let position = match find_position(nodes, c) {
            Some(p) => p,
            None => 0,
        };
        proof {
            let j = choose|j: int| last_with(id_pairs(node_views(nodes@)), c, j);
            assert(0 <= j < nodes@.len());
        }
        let placed_id = NodeId((base + position) as u16);
        out.push(placed_id);
        assert(children@.take(i + 1).map_values(|c: NodeId| placed(node_views(nodes@), base as int, c))
            =~= children@.take(i as int).map_values(|c: NodeId| placed(node_views(nodes@), base as int, c)).push(placed_id));
        i = i + 1;
    }
    assert(children@.take(i as int) == children@);
    out
}


/// The nodes that inlining appends, in subtree order.
pub open spec fn inlined_nodes(
    nodes: Seq<NodeView>,
    base: int,
    prefix: Seq<char>,
    map: Seq<(BlackboardKeyId, BlackboardKeyId)>,
) -> Seq<NodeView> {
    Seq::new(nodes.len(), |i: int| inlined_node(nodes, base, prefix, map, i))
}

impl BehaviorTreeBuilder {
    /// Copies `subtree` into this builder under `name`. Keys that `remaps`
    /// names are bound to the given keys of this builder (which must exist
    /// and have the same type); every other subtree key becomes a new local
    /// key named `name.key`. Nodes are appended with names and paths
    /// prefixed by `name/`, children and keys mapped over; the result is where
    /// the subtree's root landed. A refused remap stops the copy with the
    /// keys added so far left in place.
    pub fn inline_subtree(
        &mut self,
        name: &str,
        subtree: &BehaviorTreeDefinition,
        remaps: &[SubtreeRemap],
    ) -> (r: Result<NodeId, BehaviorTreeBuildError>)
        requires
            old(self)@.nodes.len() + subtree@.nodes.len() <= usize::MAX,
            ({
                let kp = key_pass(
                    old(self)@.keys,
                    subtree@.keys,
                    remap_pairs(remaps@),
                    name@,
                    subtree@.keys.len(),
                );
                kp.error is None ==> condition_keys_mapped(subtree@.nodes, kp.map) && ids_resolve(
                    subtree@.nodes,
                    subtree@.root,
                )
            }),
        ensures
            ({
                let kp = key_pass(
                    old(self)@.keys,
                    subtree@.keys,
                    remap_pairs(remaps@),
                    name@,
                    subtree@.keys.len(),
                );
                let base = old(self)@.nodes.len() as int;
                &&& kp.error is Some ==> (r matches Err(e) && e@ == kp.error->0)
                    && final(self)@ == (BuilderView { keys: kp.keys, ..old(self)@ })
                &&& kp.error is None ==> r == Ok::<NodeId, BehaviorTreeBuildError>(
                    placed(subtree@.nodes, base, subtree@.root),
                ) && final(self)@ == (BuilderView {
                    keys: kp.keys,
                    nodes: old(self)@.nodes + inlined_nodes(subtree@.nodes, base, name@, kp.map),
                    ..old(self)@
                })
            }),
    {
        let ghost sub_keys = subtree@.keys;
        let ghost pairs = remap_pairs(remaps@);
        let ghost keys0 = self@.keys;
        let ghost start = self@;
        let mut map: Vec<(BlackboardKeyId, BlackboardKeyId)> = Vec::new();
        let key_count = subtree.blackboard_schema.keys.len();
        let mut i: usize = 0;
        while i < key_count
            invariant
                i <= key_count,
                start == old(self)@,
                keys0 == old(self)@.keys,
                key_count == sub_keys.len(),
                sub_keys == subtree@.keys,
                pairs == remap_pairs(remaps@),
                key_pass(keys0, sub_keys, pairs, name@, i as nat).error is None,
                self@.keys == key_pass(keys0, sub_keys, pairs, name@, i as nat).keys,
                map@ == key_pass(keys0, sub_keys, pairs, name@, i as nat).map,
                self@ == (BuilderView { keys: self@.keys, ..start }),
            decreases key_count - i,
        {
            let key = &subtree.blackboard_schema.keys[i];
            assert(sub_keys[i as int] == key@);
            match find_remap(remaps, &key.name) {
                Some(target) => {
                    match self.blackboard_schema.key(target) {
                        None => {
                            proof {
                                lemma_key_pass_error_persists(keys0, sub_keys, pairs, name@, (i + 1) as nat, key_count as nat);
                            }
                            return Err(BehaviorTreeBuildError::UnknownSubtreeKey(key.name.clone()));
                        },
                        Some(definition) => {
                            if definition.value_type != key.value_type {
                                let e = BehaviorTreeBuildError::RemappedKeyTypeMismatch {
                                    subtree_key: key.name.clone(),
                                    subtree_type: key.value_type,
                                    target_type: definition.value_type,
                                };
                                proof {
                                    lemma_key_pass_error_persists(keys0, sub_keys, pairs, name@, (i + 1) as nat, key_count as nat);
                                }
                                return Err(e);
                            }
                            map.push((key.id, target));
                        },
                    }
                },
                None => {
                    let local = crate::text::joined3(name, ".", key.name.as_str());
                    let id = self.add_key(
                        local,
                        key.value_type,
                        BlackboardKeyDirection::Local,
                        key.required,
                        clone_default(&key.default_value),
                        key.description.clone(),
                    );
                    map.push((key.id, id));
                },
            }
            i = i + 1;
        }
        let ghost kp = key_pass(keys0, sub_keys, pairs, name@, key_count as nat);
        let base = self.nodes.len();
        let ghost nodes0 = self@.nodes;
        let ghost subn = subtree@.nodes;
        let count = subtree.nodes.len();
        let mut n: usize = 0;
        while n < count
            invariant
                n <= count,
                start == old(self)@,
                keys0 == old(self)@.keys,
                count == subn.len(),
                subn == subtree@.nodes,
                base == nodes0.len(),
                base + count <= usize::MAX,
                kp == key_pass(keys0, sub_keys, pairs, name@, key_count as nat),
                kp.error is None,
                condition_keys_mapped(subn, kp.map),
                ids_resolve(subn, subtree@.root),
                map@ == kp.map,
                self@ == (BuilderView {
                    keys: kp.keys,
                    nodes: nodes0 + inlined_nodes(subn, base as int, name@, kp.map).take(n as int),
                    ..start
                }),
            decreases count - n,
        {
            let sn = &subtree.nodes[n];
            assert(subn[n as int] == sn@);
            let tags = sn.tags.clone();
            assert(tags@ =~= sn.tags@);
            let node = NodeDefinition {
                id: NodeId((base + n) as u16),
                name: crate::text::joined3(name, "/", sn.name.as_str()),
                path: crate::text::joined3(name, "/", sn.path.as_str()),
                kind: remap_node_kind(&sn.kind, &map),
                children: place_children(&subtree.nodes, base, &sn.children),
                services: remap_services(&sn.services, &map),
                tags,
                watch_keys: remap_watch_keys(&sn.watch_keys, &map),
            };
            proof {
                assert(node@ == inlined_node(subn, base as int, name@, kp.map, n as int));
                lemma_push_views(self.nodes@, node);
                assert(inlined_nodes(subn, base as int, name@, kp.map).take(n + 1)
                    =~= inlined_nodes(subn, base as int, name@, kp.map).take(n as int).push(node@));
            }
            self.nodes.push(node);
            n = n + 1;
        }
        assert(inlined_nodes(subn, base as int, name@, kp.map).take(n as int) =~= inlined_nodes(subn, base as int, name@, kp.map));
        let position = match find_position(&subtree.nodes, subtree.root) {
            Some(p) => p,
            None => 0,
        };
        proof {
            let j = choose|j: int| last_with(id_pairs(subn), subtree@.root, j);
            assert(0 <= j < subn.len());
        }
        Ok(NodeId((base + position) as u16))
    }
}

fn clone_default(v: &Option<BlackboardValue>) -> (r: Option<BlackboardValue>)
    ensures
        r == *v,
{
    match v {
        Some(x) => Some(x.clone()),
        None => None,
    }
}

impl BehaviorTreeDefinition {
    /// Whether the tick engine can run this definition, by the checks that
    /// `build` makes: the root exists, leaves have no children, decorators
    /// have one, every child exists, and every node is reached from the root
    /// without a cycle.
    pub fn is_runnable(&self) -> (r: bool)
        ensures
            r ==> self@.executable(),
            r == (self@.root.0 < self@.nodes.len() && fault_free(self@.nodes) && all_reachable(
                graph(self@.nodes),
                self@.root.0 as int,
            ) && no_reachable_cycle(graph(self@.nodes), self@.root.0 as int)),
    {
        let nodes = &self.nodes;
        let ghost nv = node_views(nodes@);
        let ghost g = graph_of(nodes@);
        let count = nodes.len();
        let root = self.root;
        if root.0 as usize >= count {
            return false;
        }
        let mut index: usize = 0;
        while index < count
            invariant
                count == nodes@.len(),
                nv == node_views(nodes@),
                nv == self@.nodes,
                index <= count,
                forall|k: int| 0 <= k < index ==> !#[trigger] faulty(nv, k),
            decreases count - index,
        {
            if check_node(&nodes[index], index, count).is_some() {
                proof {
                    assert(nodes@[index as int]@ == nv[index as int]);
                    assert(faulty(nv, index as int));
                }
                return false;
            }
            assert(nodes@[index as int]@ == nv[index as int]);
            index = index + 1;
        }
        assert(fault_free(nv));
        let mut color: Vec<u8> = Vec::new();
        let mut i: usize = 0;
        while i < count
            invariant
                i <= count,
                color@ == Seq::new(i as nat, |k: int| 0u8),
            decreases count - i,
        {
            color.push(0);
            assert(color@ =~= Seq::new((i + 1) as nat, |k: int| 0u8));
            i = i + 1;
        }
        let ghost fin0 = Seq::new(count as nat, |k: int| 0nat);
        proof {
            assert(g.len() == count);
            assert forall|a: int, b: int| 0 <= a < g.len() && 0 <= b < g[a].len() implies (#[trigger] g[a][b]).0 < g.len() by {
                assert(!faulty(nv, a));
                assert(g[a] == nv[a].children);
                if g[a][b].0 >= g.len() {
                    assert(has_unknown_child(nv[a].children, nv.len() as int));
                }
            }
            assert forall|x: int| 0 <= x < color@.len() implies (#[trigger] color@[x] == 1 <==> Seq::<int>::empty().contains(x)) by {
                assert(color@[x] == 0);
            }
            assert(dfs_inv(g, root.0 as int, color@, Seq::empty(), fin0, 0));
        }
        let (res, Ghost(fin), Ghost(next)) = visit_node(
            root,
            nodes,
            &mut color,
            Ghost(root.0 as int),
            Ghost(Seq::empty()),
            Ghost(fin0),
            Ghost(0),
        );
        if res.is_err() {
            return false;
        }
        proof {
            lemma_finished_closure(g, root.0 as int, color@, fin, next);
        }
        let mut k: usize = 0;
        while k < count
            invariant
                k <= count,
                color@.len() == count,
                g.len() == count,
                g == graph(self@.nodes),
                root == self@.root,
                forall|y: int| 0 <= y < k ==> #[trigger] color@[y] != 0,
                forall|x: int| 0 <= x < g.len() ==> (#[trigger] color@[x] == 0 <==> !reachable(g, root.0 as int, x)),
            decreases count - k,
        {
            if color[k] == 0 {
                assert(!reachable(g, root.0 as int, k as int));
                return false;
            }
            k = k + 1;
        }
        proof {
            assert forall|x: int| 0 <= x < g.len() implies #[trigger] reachable(g, root.0 as int, x) by {
                assert(color@[x] != 0);
            }
            assert forall|x: int| 0 <= x < color@.len() implies #[trigger] color@[x] == 2 by {
                assert(color@[x] != 0);
                assert(color@[x] != 1);
            }
            assert(crate::definition::ranked_by(g, fin));
            assert forall|x: int| 0 <= x < nv.len() implies {
                &&& ((#[trigger] nv[x]).kind.is_leaf() ==> nv[x].children.len() == 0)
                &&& (nv[x].kind.is_decorator() ==> nv[x].children.len() == 1)
            } by {
                assert(!faulty(nv, x));
            }
            assert(crate::definition::arity_ok(nv));
        }
        true
    }
}


/// `pair` binds subtree key `k`: it maps `k`'s id to the target of the last
/// remap that names `k`, or, where no remap names it, to the id of a key
/// placed after `keys0` in `keys` that is named `prefix.name`, has `k`'s type
/// and is local.
pub open spec fn binds(
    keys0: Seq<BlackboardKeyView>,
    keys: Seq<BlackboardKeyView>,
    remaps: Seq<(Seq<char>, BlackboardKeyId)>,
    prefix: Seq<char>,
    k: BlackboardKeyView,
    pair: (BlackboardKeyId, BlackboardKeyId),
) -> bool {
    &&& pair.0 == k.id
    &&& match lookup_last(remaps, k.name) {
        Some(t) => pair.1 == t,
        None => exists|idx: int|
            keys0.len() <= idx < keys.len() && (#[trigger] keys[idx]).id == pair.1 && keys[idx].name == prefix
                + "."@ + k.name && keys[idx].value_type == k.value_type && keys[idx].direction
                == BlackboardKeyDirection::Local,
    }
}

/// A key pass that ran without error over the first `n` subtree keys has
/// bound each of them, in order, and kept the builder's own keys in front.
proof fn lemma_key_pass_bindings(
    keys0: Seq<BlackboardKeyView>,
    sub: Seq<BlackboardKeyView>,
    remaps: Seq<(Seq<char>, BlackboardKeyId)>,
    prefix: Seq<char>,
    n: nat,
)
    requires
        n <= sub.len(),
        key_pass(keys0, sub, remaps, prefix, n).error is None,
    ensures
        ({
            let kp = key_pass(keys0, sub, remaps, prefix, n);
            &&& kp.map.len() == n
            &&& keys0.len() <= kp.keys.len()
            &&& forall|m: int| 0 <= m < n ==> binds(keys0, kp.keys, remaps, prefix, sub[m], #[trigger] kp.map[m])
        }),
    decreases n,
{
    if n > 0 {
        let p = key_pass(keys0, sub, remaps, prefix, (n - 1) as nat);
        let kp = key_pass(keys0, sub, remaps, prefix, n);
        let k = sub[n - 1];
        assert(p.error is None);
        lemma_key_pass_bindings(keys0, sub, remaps, prefix, (n - 1) as nat);
        match lookup_last(remaps, k.name) {
            Some(t) => {
                assert(kp.keys == p.keys);
                assert(kp.map == p.map.push((k.id, t)));
                assert forall|m: int| 0 <= m < n implies binds(keys0, kp.keys, remaps, prefix, sub[m], #[trigger] kp.map[m]) by {
                    if m < n - 1 {
                        assert(kp.map[m] == p.map[m]);
                    }
                }
            },
            None => {
                let fresh = new_key(
                    p.keys.len() as int,
                    prefix + "."@ + k.name,
                    k.value_type,
                    BlackboardKeyDirection::Local,
                    k.required,
                    k.default_value,
                    k.description,
                );
                assert(kp.keys == p.keys.push(fresh));
                assert(kp.map == p.map.push((k.id, BlackboardKeyId(p.keys.len() as u16))));
                assert forall|m: int| 0 <= m < n implies binds(keys0, kp.keys, remaps, prefix, sub[m], #[trigger] kp.map[m]) by {
                    if m < n - 1 {
                        assert(kp.map[m] == p.map[m]);
                        assert(binds(keys0, p.keys, remaps, prefix, sub[m], p.map[m]));
                        if lookup_last(remaps, sub[m].name) is None {
                            let idx = choose|idx: int|
                                keys0.len() <= idx < p.keys.len() && (#[trigger] p.keys[idx]).id == p.map[m].1
                                    && p.keys[idx].name == prefix + "."@ + sub[m].name && p.keys[idx].value_type
                                    == sub[m].value_type && p.keys[idx].direction == BlackboardKeyDirection::Local;
                            assert(kp.keys[idx] == p.keys[idx]);
                        }
                    } else {
                        assert(kp.keys[p.keys.len() as int] == fresh);
                    }
                }
            },
        }
    }
}

/// Inlining binds each subtree key, and the copy of a blackboard-condition
/// node reads the key bound to the one it read in the subtree: the target of
/// the last remap that names that key, or, where no remap names it, the local
/// key that inlining added for it (named `prefix.name`, of the same type).
/// The condition and its abort policy are copied unchanged.
pub proof fn law_inlined_conditions_read_bound_keys(
    keys0: Seq<BlackboardKeyView>,
    sub: Seq<BlackboardKeyView>,
    remaps: Seq<(Seq<char>, BlackboardKeyId)>,
    prefix: Seq<char>,
    nodes: Seq<NodeView>,
    base: int,
    i: int,
    j: int,
    condition: BlackboardCondition,
    abort_policy: AbortPolicy,
)
    requires
        key_pass(keys0, sub, remaps, prefix, sub.len()).error is None,
        0 <= j < sub.len(),
        forall|b: int| j < b < sub.len() ==> sub[b].id != sub[j].id,
        0 <= i < nodes.len(),
        nodes[i].kind == NodeKindView::Decorator(
            DecoratorKindView::BlackboardCondition { key: sub[j].id, condition, abort_policy },
        ),
    ensures
        ({
            let kp = key_pass(keys0, sub, remaps, prefix, sub.len());
            let copy = inlined_nodes(nodes, base, prefix, kp.map)[i];
            match lookup_last(remaps, sub[j].name) {
                Some(target) => copy.kind == NodeKindView::Decorator(
                    DecoratorKindView::BlackboardCondition { key: target, condition, abort_policy },
                ),
                None => exists|idx: int|
                    keys0.len() <= idx < kp.keys.len() && copy.kind == NodeKindView::Decorator(
                        DecoratorKindView::BlackboardCondition {
                            key: (#[trigger] kp.keys[idx]).id,
                            condition,
                            abort_policy,
                        },
                    ) && kp.keys[idx].name == prefix + "."@ + sub[j].name && kp.keys[idx].value_type
                        == sub[j].value_type,
            }
        }),
{
    let kp = key_pass(keys0, sub, remaps, prefix, sub.len());
    lemma_bound_key_lookup(keys0, sub, remaps, prefix, j);
    assert(inlined_nodes(nodes, base, prefix, kp.map)[i] == inlined_node(nodes, base, prefix, kp.map, i));
}

/// The copy of a node watches, in place of each subtree key it watched, the
/// key that inlining bound to it: the target of the last remap that names
/// the key, or the local key added for it (named `prefix.name`, of the same
/// type).
pub proof fn law_inlined_watch_keys_follow_bound_keys(
    keys0: Seq<BlackboardKeyView>,
    sub: Seq<BlackboardKeyView>,
    remaps: Seq<(Seq<char>, BlackboardKeyId)>,
    prefix: Seq<char>,
    nodes: Seq<NodeView>,
    base: int,
    i: int,
    w: int,
    j: int,
)
    requires
        key_pass(keys0, sub, remaps, prefix, sub.len()).error is None,
        0 <= j < sub.len(),
        forall|b: int| j < b < sub.len() ==> sub[b].id != sub[j].id,
        0 <= i < nodes.len(),
        0 <= w < nodes[i].watch_keys.len(),
        nodes[i].watch_keys[w] == sub[j].id,
    ensures
        ({
            let kp = key_pass(keys0, sub, remaps, prefix, sub.len());
            let copy = inlined_nodes(nodes, base, prefix, kp.map)[i];
            &&& copy.watch_keys.len() == nodes[i].watch_keys.len()
            &&& match lookup_last(remaps, sub[j].name) {
                Some(target) => copy.watch_keys[w] == target,
                None => exists|idx: int|
                    keys0.len() <= idx < kp.keys.len() && copy.watch_keys[w] == (#[trigger] kp.keys[idx]).id
                        && kp.keys[idx].name == prefix + "."@ + sub[j].name && kp.keys[idx].value_type
                        == sub[j].value_type,
            }
        }),
{
    let kp = key_pass(keys0, sub, remaps, prefix, sub.len());
    lemma_bound_key_lookup(keys0, sub, remaps, prefix, j);
    assert(inlined_nodes(nodes, base, prefix, kp.map)[i] == inlined_node(nodes, base, prefix, kp.map, i));
}

/// Looking up subtree key `sub[j]` (the last with its id) in the map of a
/// successful key pass finds the pair that binds it.
proof fn lemma_bound_key_lookup(
    keys0: Seq<BlackboardKeyView>,
    sub: Seq<BlackboardKeyView>,
    remaps: Seq<(Seq<char>, BlackboardKeyId)>,
    prefix: Seq<char>,
    j: int,
)
    requires
        key_pass(keys0, sub, remaps, prefix, sub.len()).error is None,
        0 <= j < sub.len(),
        forall|b: int| j < b < sub.len() ==> sub[b].id != sub[j].id,
    ensures
        ({
            let kp = key_pass(keys0, sub, remaps, prefix, sub.len());
            &&& j < kp.map.len()
            &&& lookup_last(kp.map, sub[j].id) == Some(kp.map[j].1)
            &&& binds(keys0, kp.keys, remaps, prefix, sub[j], kp.map[j])
        }),
{
    let kp = key_pass(keys0, sub, remaps, prefix, sub.len());
    lemma_key_pass_bindings(keys0, sub, remaps, prefix, sub.len());
    let key = sub[j].id;
    assert(binds(keys0, kp.keys, remaps, prefix, sub[j], kp.map[j]));
    assert forall|b: int| j < b < kp.map.len() implies (#[trigger] kp.map[b]).0 != key by {
        assert(binds(keys0, kp.keys, remaps, prefix, sub[b], kp.map[b]));
    }
    assert(last_with(kp.map, key, j));
    let c = choose|c: int| last_with(kp.map, key, c);
    lemma_last_with_unique(kp.map, key, j, c);
}

} // verus!
