use saddle_ai_behavior_tree::blackboard::{
    BlackboardKeyDefinition, BlackboardKeyDirection, BlackboardKeyId, BlackboardSchema,
    BlackboardValueType,
};
use saddle_ai_behavior_tree::builder::{BehaviorTreeBuildError, BehaviorTreeBuilder, SubtreeRemap};
use saddle_ai_behavior_tree::definition::{BehaviorTreeDefinition, NodeDefinition, NodeId};
use saddle_ai_behavior_tree::handlers::ActionKey;
use saddle_ai_behavior_tree::nodes::{AbortPolicy, DecoratorKind, NodeKind, ServiceBinding};

#[test]
fn build_without_root_is_refused() {
    let mut builder = BehaviorTreeBuilder::new("rootless");
    builder.action("Idle", "idle");
    assert!(matches!(builder.build(), Err(BehaviorTreeBuildError::MissingRoot)));
}

#[test]
fn unknown_child_is_refused() {
    let mut builder = BehaviorTreeBuilder::new("dangling");
    let a = builder.action("A", "a");
    let root = builder.sequence("Root", &[a, NodeId(40)]);
    builder.set_root(root);
    assert!(matches!(builder.build(), Err(BehaviorTreeBuildError::UnknownNode(NodeId(40)))));
}

#[test]
fn unreachable_node_is_refused() {
    let mut builder = BehaviorTreeBuilder::new("orphan");
    let a = builder.action("A", "a");
    let _b = builder.action("B", "b");
    let root = builder.sequence("Root", &[a]);
    builder.set_root(root);
    assert!(matches!(builder.build(), Err(BehaviorTreeBuildError::UnreachableNode(NodeId(1)))));
}

#[test]
fn cycle_is_refused() {
    let mut builder = BehaviorTreeBuilder::new("loop");
    // Node 0 names node 1 as its child, and node 1 names node 0.
    let first = builder.sequence("First", &[NodeId(1)]);
    let _second = builder.sequence("Second", &[first]);
    builder.set_root(first);
    assert!(matches!(builder.build(), Err(BehaviorTreeBuildError::CycleDetected(_))));
}

#[test]
fn build_assigns_ids_paths_and_watched_keys() {
    let mut builder = BehaviorTreeBuilder::new("guard");
    let visible = builder.bool_key("visible", BlackboardKeyDirection::Input, false, Some(false));
    let ammo = builder.int_key("ammo", BlackboardKeyDirection::Input, false, Some(3));
    let can_attack = builder.condition_with_watch_keys("CanAttack", "can_attack", &[visible, ammo]);
    let attack = builder.action("Attack", "attack");
    let patrol = builder.action("Patrol", "patrol");
    let branch = builder.sequence("AttackBranch", &[can_attack, attack]);
    let root = builder.reactive_selector("Root", AbortPolicy::LowerPriority, &[branch, patrol]);
    builder.add_tag(patrol, "movement");
    builder.add_service(root, ServiceBinding::new("sense", "sense", 250_000).with_watch_keys(&[ammo]));
    builder.set_root(root);
    let definition = builder.build().unwrap();
    assert_eq!(definition.root, root);
    assert_eq!(definition.nodes.len(), 5);
    for (index, node) in definition.nodes.iter().enumerate() {
        assert_eq!(node.id, NodeId(index as u16));
        assert_eq!(node.path, node.name);
    }
    assert_eq!(definition.watched_keys, vec![visible, ammo]);
    assert_eq!(definition.find_blackboard_key("ammo"), Some(ammo));
    assert_eq!(definition.nodes[patrol.0 as usize].tags, vec!["movement".to_owned()]);
    assert_eq!(definition.nodes[root.0 as usize].services.len(), 1);
    assert_eq!(definition.nodes[root.0 as usize].services[0].interval_micros, 250_000);
}

#[test]
fn keys_get_dense_ids_in_declaration_order() {
    let mut builder = BehaviorTreeBuilder::new("keys");
    let a = builder.float_key("speed", BlackboardKeyDirection::Local, false, None);
    let b = builder.text_key("label", BlackboardKeyDirection::Output, false, Some("x"));
    let c = builder.entity_key("target", BlackboardKeyDirection::InOut, true, None);
    assert_eq!((a, b, c), (BlackboardKeyId(0), BlackboardKeyId(1), BlackboardKeyId(2)));
}

fn job_subtree() -> BehaviorTreeDefinition {
    let mut subtree = BehaviorTreeBuilder::new("job");
    let ready = subtree.bool_key("ready", BlackboardKeyDirection::Input, true, Some(false));
    let _scratch = subtree.int_key("scratch", BlackboardKeyDirection::Local, false, Some(0));
    let act = subtree.action("Act", "act");
    let root = subtree.guard("Ready", "is_ready", AbortPolicy::SelfOnly, &[ready], act);
    subtree.set_root(root);
    subtree.build().unwrap()
}

#[test]
fn inline_subtree_remaps_and_prefixes() {
    let subtree = job_subtree();
    let mut builder = BehaviorTreeBuilder::new("parent");
    let parent_ready = builder.bool_key("parent_ready", BlackboardKeyDirection::Input, true, Some(false));
    let inlined = builder
        .inline_subtree("worker", &subtree, &[SubtreeRemap::new("ready", parent_ready)])
        .unwrap();
    builder.set_root(inlined);
    let definition = builder.build().unwrap();
    // The remapped key is reused; the local one is copied under a prefixed name.
    assert_eq!(definition.blackboard_schema.keys.len(), 2);
    assert_eq!(definition.find_blackboard_key("worker.scratch"), Some(BlackboardKeyId(1)));
    assert_eq!(definition.nodes.len(), 2);
    let guard = &definition.nodes[inlined.0 as usize];
    assert_eq!(guard.name, "worker/Ready");
    match &guard.kind {
        NodeKind::Decorator(DecoratorKind::Guard { watch_keys, .. }) => {
            assert_eq!(watch_keys, &vec![parent_ready]);
        },
        _ => panic!("expected a guard"),
    }
    assert_eq!(definition.watched_keys, vec![parent_ready]);
}

#[test]
fn inline_subtree_refuses_unknown_and_mistyped_keys() {
    let subtree = job_subtree();
    let mut builder = BehaviorTreeBuilder::new("parent");
    let _ = builder.bool_key("parent_ready", BlackboardKeyDirection::Input, true, Some(false));
    // A remap whose target the parent does not have is refused.
    match builder.inline_subtree("worker", &subtree, &[SubtreeRemap::new("ready", BlackboardKeyId(9))]) {
        Err(BehaviorTreeBuildError::UnknownSubtreeKey(key)) => assert_eq!(key, "ready"),
        _ => panic!("expected an unknown subtree key"),
    }
    // A remap naming no key of the subtree is ignored.
    let mut builder = BehaviorTreeBuilder::new("parent");
    let parent_ready = builder.bool_key("parent_ready", BlackboardKeyDirection::Input, true, Some(false));
    assert!(builder.inline_subtree("worker", &subtree, &[SubtreeRemap::new("nope", parent_ready)]).is_ok());
    let mut builder = BehaviorTreeBuilder::new("parent");
    let _ = builder.bool_key("parent_ready", BlackboardKeyDirection::Input, true, Some(false));
    let count = builder.int_key("count", BlackboardKeyDirection::Input, true, Some(0));
    match builder.inline_subtree("worker", &subtree, &[SubtreeRemap::new("ready", count)]) {
        Err(BehaviorTreeBuildError::RemappedKeyTypeMismatch { subtree_key, subtree_type, target_type }) => {
            assert_eq!(subtree_key, "ready");
            assert_eq!(subtree_type, BlackboardValueType::Bool);
            assert_eq!(target_type, BlackboardValueType::Int);
        },
        _ => panic!("expected a type mismatch"),
    }
}

#[test]
fn decorator_with_two_children_is_refused() {
    let node = |id: u16, kind: NodeKind, children: Vec<NodeId>| NodeDefinition {
        id: NodeId(id),
        name: format!("n{id}"),
        path: String::new(),
        kind,
        children,
        services: Vec::new(),
        tags: Vec::new(),
        watch_keys: Vec::new(),
    };
    let odd = BehaviorTreeDefinition {
        name: "odd".to_owned(),
        root: NodeId(0),
        nodes: vec![
            node(0, NodeKind::Decorator(DecoratorKind::Inverter), vec![NodeId(1), NodeId(2)]),
            node(1, NodeKind::Action(ActionKey("a".to_owned())), Vec::new()),
            node(2, NodeKind::Action(ActionKey("b".to_owned())), Vec::new()),
        ],
        blackboard_schema: BlackboardSchema { keys: Vec::<BlackboardKeyDefinition>::new() },
        watched_keys: Vec::new(),
    };
    let mut builder = BehaviorTreeBuilder::new("parent");
    let root = builder.inline_subtree("odd", &odd, &[]).unwrap();
    builder.set_root(root);
    match builder.build() {
        Err(BehaviorTreeBuildError::InvalidChildCount { node, expected, found }) => {
            assert_eq!(node, NodeId(0));
            assert_eq!(expected, "decorator with exactly 1 child");
            assert_eq!(found, 2);
        },
        _ => panic!("expected an invalid child count"),
    }
}

#[test]
fn built_definitions_are_runnable_and_broken_ones_are_not() {
    let mut builder = BehaviorTreeBuilder::new("fine");
    let a = builder.action("A", "a");
    let root = builder.inverter("Not", a);
    builder.set_root(root);
    let definition = builder.build().unwrap();
    assert!(definition.is_runnable());

    let node = |id: u16, kind: NodeKind, children: Vec<NodeId>| NodeDefinition {
        id: NodeId(id),
        name: format!("n{id}"),
        path: String::new(),
        kind,
        children,
        services: Vec::new(),
        tags: Vec::new(),
        watch_keys: Vec::new(),
    };
    let looped = BehaviorTreeDefinition {
        name: "looped".to_owned(),
        root: NodeId(0),
        nodes: vec![
            node(0, NodeKind::Decorator(DecoratorKind::Inverter), vec![NodeId(1)]),
            node(1, NodeKind::Decorator(DecoratorKind::ForceSuccess), vec![NodeId(0)]),
        ],
        blackboard_schema: BlackboardSchema { keys: Vec::<BlackboardKeyDefinition>::new() },
        watched_keys: Vec::new(),
    };
    assert!(!looped.is_runnable());
    let rootless = BehaviorTreeDefinition {
        name: "rootless".to_owned(),
        root: NodeId(5),
        nodes: vec![node(0, NodeKind::Action(ActionKey("a".to_owned())), Vec::new())],
        blackboard_schema: BlackboardSchema { keys: Vec::<BlackboardKeyDefinition>::new() },
        watched_keys: Vec::new(),
    };
    assert!(!rootless.is_runnable());
}

#[test]
fn cloned_definition_is_equal_in_content() {
    let mut builder = BehaviorTreeBuilder::new("copy");
    let key = builder.bool_key("k", BlackboardKeyDirection::Input, false, Some(true));
    let a = builder.condition_with_watch_keys("A", "a", &[key]);
    let root = builder.guard("G", "g", AbortPolicy::Both, &[key], a);
    builder.add_service(root, ServiceBinding::new("s", "s", 1_000));
    builder.set_root(root);
    let definition = builder.build().unwrap();
    let copy = definition.clone();
    assert_eq!(copy.name, definition.name);
    assert_eq!(copy.root, definition.root);
    assert_eq!(copy.nodes.len(), definition.nodes.len());
    assert_eq!(copy.nodes[1].services[0].key.0, "s");
    assert_eq!(copy.watched_keys, definition.watched_keys);
    assert_eq!(copy.blackboard_schema.keys[0].name, "k");
}

#[test]
fn cycle_names_the_first_node_found_again() {
    let mut builder = BehaviorTreeBuilder::new("t");
    builder.sequence("S", &[NodeId(1)]);
    builder.inverter("I", NodeId(0));
    builder.set_root(NodeId(0));
    assert!(matches!(builder.build(), Err(BehaviorTreeBuildError::CycleDetected(NodeId(0)))));
}
