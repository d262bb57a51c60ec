//! Drives whole trees through a small stand-in for the application's update
//! pipeline: control requests, instance upkeep, blackboard wakes, ticking,
//! message flushing and end-of-frame cleanup.
use std::rc::Rc;

use saddle_ai_behavior_tree::blackboard::{
    BehaviorTreeBlackboard, BlackboardCondition, BlackboardKeyDirection, BlackboardKeyId,
    BlackboardValue, EntityBits,
};
use saddle_ai_behavior_tree::builder::{BehaviorTreeBuilder, SubtreeRemap};
use saddle_ai_behavior_tree::components::BehaviorTreeAgent;
use saddle_ai_behavior_tree::definition::{BehaviorTreeDefinition, NodeId};
use saddle_ai_behavior_tree::execution::{should_tick, tick_tree, TickEnv, TreeHost};
use saddle_ai_behavior_tree::handlers::{
    ActionKey, ActionTicket, BehaviorTreeHandlers, ConditionKey, ServiceKey,
};
use saddle_ai_behavior_tree::messages::{
    ActionResolution, RuntimeMessageBuffer, TreeResetRequested, TreeWakeRequested,
};
use saddle_ai_behavior_tree::nodes::{AbortPolicy, BehaviorStatus, ParallelPolicy, ServiceBinding};
use saddle_ai_behavior_tree::resources::BehaviorTreeLibrary;
use saddle_ai_behavior_tree::runtime::{
    request_async_ticket, take_async_resolution, BehaviorTreeConfig, BehaviorTreeInstance,
    BehaviorTreeRunState, NodeRuntimeState, TickMode,
};
use saddle_ai_behavior_tree::systems::{
    apply_action_resolution, apply_reset, apply_wake, end_of_frame, needs_new_instance,
    refresh_blackboard, start_instance, wake_on_blackboard_change,
};

#[derive(Default)]
struct World {
    log: Vec<&'static str>,
    counter: u32,
    service_runs: u32,
    tickets: Vec<ActionTicket>,
}

struct ActionCtx<'a> {
    world: &'a mut World,
    blackboard: &'a mut BehaviorTreeBlackboard,
    node_state: &'a mut NodeRuntimeState,
    ticket_counter: &'a mut u64,
}

type ActionFn = Rc<dyn Fn(&mut ActionCtx) -> BehaviorStatus>;
type AbortFn = Rc<dyn Fn(&mut ActionCtx)>;
type ConditionFn = Rc<dyn Fn(&World, &BehaviorTreeBlackboard) -> bool>;
type ServiceFn = Rc<dyn Fn(&mut World, &mut BehaviorTreeBlackboard)>;

#[derive(Clone)]
struct Action {
    on_start: ActionFn,
    on_tick: ActionFn,
    on_abort: Option<AbortFn>,
}

fn instant(f: impl Fn(&mut ActionCtx) -> BehaviorStatus + 'static) -> Action {
    let f: ActionFn = Rc::new(f);
    Action { on_start: f.clone(), on_tick: f, on_abort: None }
}

fn stateful(
    on_start: impl Fn(&mut ActionCtx) -> BehaviorStatus + 'static,
    on_tick: impl Fn(&mut ActionCtx) -> BehaviorStatus + 'static,
    on_abort: impl Fn(&mut ActionCtx) + 'static,
) -> Action {
    Action { on_start: Rc::new(on_start), on_tick: Rc::new(on_tick), on_abort: Some(Rc::new(on_abort)) }
}

type Handlers = BehaviorTreeHandlers<Action, ConditionFn, ServiceFn>;

struct Host<'a> {
    world: &'a mut World,
    handlers: &'a Handlers,
}

impl TreeHost for Host<'_> {
    fn has_action(&self, key: &ActionKey) -> bool {
        self.handlers.action(key).is_some()
    }

    fn run_action(
        &mut self,
        _definition: &BehaviorTreeDefinition,
        _node: NodeId,
        key: &ActionKey,
        starting: bool,
        blackboard: &mut BehaviorTreeBlackboard,
        node_state: &mut NodeRuntimeState,
        ticket_counter: &mut u64,
        _wake_requested: &mut bool,
        _wake_reason: &mut String,
    ) -> BehaviorStatus {
        let handlers = self.handlers;
        let Some(handler) = handlers.action(key) else {
            return BehaviorStatus::Failure;
        };
        let mut ctx = ActionCtx { world: &mut *self.world, blackboard, node_state, ticket_counter };
        if starting {
            (handler.on_start)(&mut ctx)
        } else {
            (handler.on_tick)(&mut ctx)
        }
    }

    fn abort_action(
        &mut self,
        _definition: &BehaviorTreeDefinition,
        _node: NodeId,
        key: &ActionKey,
        blackboard: &mut BehaviorTreeBlackboard,
        node_state: &mut NodeRuntimeState,
        ticket_counter: &mut u64,
        _wake_requested: &mut bool,
        _wake_reason: &mut String,
    ) {
        let handlers = self.handlers;
        if let Some(on_abort) = handlers.action(key).and_then(|h| h.on_abort.as_ref()) {
            let mut ctx = ActionCtx { world: &mut *self.world, blackboard, node_state, ticket_counter };
            on_abort(&mut ctx);
        }
    }

    fn evaluate_condition(
        &mut self,
        _definition: &BehaviorTreeDefinition,
        _node: NodeId,
        key: &ConditionKey,
        blackboard: &BehaviorTreeBlackboard,
    ) -> bool {
        match self.handlers.condition(key) {
            Some(condition) => condition(&*self.world, blackboard),
            None => false,
        }
    }

    fn run_service(
        &mut self,
        _definition: &BehaviorTreeDefinition,
        _node: NodeId,
        key: &ServiceKey,
        blackboard: &mut BehaviorTreeBlackboard,
        _node_state: &mut NodeRuntimeState,
        _wake_requested: &mut bool,
        _wake_reason: &mut String,
    ) {
        let handlers = self.handlers;
        if let Some(service) = handlers.service(key) {
            service(&mut *self.world, blackboard);
        }
    }
}

struct Agent {
    agent: BehaviorTreeAgent,
    instance: Option<BehaviorTreeInstance>,
    blackboard: Option<BehaviorTreeBlackboard>,
}

struct Sim {
    library: BehaviorTreeLibrary,
    handlers: Handlers,
    world: World,
    agents: Vec<Agent>,
    now: i64,
    frame: u64,
    activated: bool,
    wakes: Vec<TreeWakeRequested>,
    resets: Vec<TreeResetRequested>,
    resolutions: Vec<ActionResolution>,
    buffer: RuntimeMessageBuffer,
    delivered: RuntimeMessageBuffer,
}

const FRAME_MICROS: i64 = 16_667;

impl Sim {
    fn new() -> Self {
        Sim {
            library: BehaviorTreeLibrary::default(),
            handlers: Handlers::default(),
            world: World::default(),
            agents: Vec::new(),
            now: 0,
            frame: 0,
            activated: false,
            wakes: Vec::new(),
            resets: Vec::new(),
            resolutions: Vec::new(),
            buffer: RuntimeMessageBuffer::default(),
            delivered: RuntimeMessageBuffer::default(),
        }
    }

    fn with_definition(definition: BehaviorTreeDefinition, config: BehaviorTreeConfig) -> (Sim, EntityBits) {
        let mut sim = Sim::new();
        let id = sim.library.register(definition).unwrap();
        let entity = sim.spawn(BehaviorTreeAgent::new(id).with_config(config));
        (sim, entity)
    }

    fn spawn(&mut self, agent: BehaviorTreeAgent) -> EntityBits {
        self.agents.push(Agent { agent, instance: None, blackboard: None });
        EntityBits((self.agents.len() - 1) as u64)
    }

    fn agent(&self, entity: EntityBits) -> &Agent {
        &self.agents[entity.0 as usize]
    }

    fn instance(&self, entity: EntityBits) -> &BehaviorTreeInstance {
        self.agent(entity).instance.as_ref().unwrap()
    }

    fn blackboard(&mut self, entity: EntityBits) -> &mut BehaviorTreeBlackboard {
        self.agents[entity.0 as usize].blackboard.as_mut().unwrap()
    }

    fn ensure_instance(&mut self, index: usize) {
        let agent = self.agents[index].agent;
        let Some(definition) = self.library.get(agent.definition) else {
            return;
        };
        let slot = &mut self.agents[index];
        let current = slot.instance.as_ref().map(|instance| instance.definition);
        let new_instance = needs_new_instance(current, agent.definition);
        if new_instance {
            slot.instance =
                Some(start_instance(agent.definition, definition.nodes.len(), &agent.config, self.now));
        }
        match slot.blackboard.as_mut() {
            Some(blackboard) => refresh_blackboard(
                blackboard,
                &definition.blackboard_schema,
                new_instance,
                agent.config.preserve_blackboard_on_definition_change,
            ),
            None => {
                slot.blackboard = Some(BehaviorTreeBlackboard::from_schema(&definition.blackboard_schema));
            },
        }
    }

    fn activate(&mut self) {
        for index in 0..self.agents.len() {
            self.ensure_instance(index);
        }
    }

    fn prepare(&mut self) {
        for wake in std::mem::take(&mut self.wakes) {
            if let Some(instance) = self.agents[wake.entity.0 as usize].instance.as_mut() {
                apply_wake(instance, wake.reason);
            }
        }
        for reset in std::mem::take(&mut self.resets) {
            if let Some(instance) = self.agents[reset.entity.0 as usize].instance.as_mut() {
                apply_reset(instance, reset.reason);
            }
        }
        for resolution in std::mem::take(&mut self.resolutions) {
            if let Some(instance) = self.agents[resolution.entity.0 as usize].instance.as_mut() {
                apply_action_resolution(instance, resolution.ticket, resolution.status);
            }
        }
        self.activate();
        for slot in &mut self.agents {
            if !slot.agent.enabled {
                continue;
            }
            let Some(definition) = self.library.get(slot.agent.definition) else {
                continue;
            };
            if let (Some(blackboard), Some(instance)) = (slot.blackboard.as_ref(), slot.instance.as_mut()) {
                wake_on_blackboard_change(definition, blackboard, instance);
            }
        }
    }

    fn evaluate(&mut self) {
        for (index, slot) in self.agents.iter_mut().enumerate() {
            if !slot.agent.enabled {
                continue;
            }
            let Some(definition) = self.library.get(slot.agent.definition) else {
                continue;
            };
            let (Some(instance), Some(blackboard)) = (slot.instance.as_mut(), slot.blackboard.as_mut()) else {
                continue;
            };
            if should_tick(&slot.agent.config, instance, self.now) {
                let env = TickEnv {
                    entity: EntityBits(index as u64),
                    frame: self.frame,
                    now: self.now,
                    config: slot.agent.config,
                };
                let mut host = Host { world: &mut self.world, handlers: &self.handlers };
                tick_tree(&mut host, definition, &env, instance, blackboard, &mut self.buffer);
            }
        }
    }

    fn flush(&mut self) {
        let buffer = std::mem::take(&mut self.buffer);
        self.delivered.tree_completed.extend(buffer.tree_completed);
        self.delivered.node_started.extend(buffer.node_started);
        self.delivered.node_finished.extend(buffer.node_finished);
        self.delivered.branch_aborted.extend(buffer.branch_aborted);
        self.delivered.blackboard_changed.extend(buffer.blackboard_changed);
    }

    fn cleanup(&mut self) {
        for slot in &mut self.agents {
            if let Some(blackboard) = slot.blackboard.as_mut() {
                end_of_frame(blackboard, slot.agent.config.emit_blackboard_messages);
            }
        }
    }

    fn update(&mut self) {
        if !self.activated {
            self.activate();
            self.activated = true;
        }
        self.prepare();
        self.evaluate();
        self.flush();
        self.cleanup();
        self.frame += 1;
        self.now += FRAME_MICROS;
    }

    fn wake(&mut self, entity: EntityBits, reason: &str) {
        self.wakes.push(TreeWakeRequested::new(entity, reason));
    }
}

fn single_action_tree(name: &str, key: &str) -> BehaviorTreeDefinition {
    let mut builder = BehaviorTreeBuilder::new(name);
    let root = builder.action("Root", key);
    builder.set_root(root);
    builder.build().unwrap()
}

#[test]
fn sequence_with_memory_resumes_at_failed_child() {
    let mut builder = BehaviorTreeBuilder::new("sequence_memory");
    let a = builder.action("A", "step_a");
    let b = builder.action("B", "step_b");
    let c = builder.action("C", "step_c");
    let root = builder.sequence_with_memory("root", &[a, b, c]);
    builder.set_root(root);
    let definition = builder.build().unwrap();
    let (mut sim, _entity) = Sim::with_definition(
        definition,
        BehaviorTreeConfig { restart_on_completion: true, ..Default::default() },
    );
    sim.handlers.register_action(
        "step_a",
        instant(|ctx| {
            ctx.world.log.push("A");
            BehaviorStatus::Success
        }),
    );
    sim.handlers.register_action(
        "step_b",
        instant(|ctx| {
            ctx.world.log.push("B");
            ctx.world.counter += 1;
            if ctx.world.counter == 1 {
                BehaviorStatus::Failure
            } else {
                BehaviorStatus::Success
            }
        }),
    );
    sim.handlers.register_action(
        "step_c",
        instant(|ctx| {
            ctx.world.log.push("C");
            BehaviorStatus::Success
        }),
    );

    sim.update();
    assert_eq!(sim.world.log, vec!["A", "B"]);

    sim.update();
    assert_eq!(sim.world.log, vec!["A", "B", "B", "C"]);
}

#[test]
fn reactive_selector_aborts_lower_priority_running_child() {
    let mut builder = BehaviorTreeBuilder::new("reactive_abort");
    let visible = builder.bool_key("visible", BlackboardKeyDirection::Input, false, Some(false));
    let can_attack = builder.condition_with_watch_keys("CanAttack", "can_attack", &[visible]);
    let attack = builder.action("Attack", "attack");
    let patrol = builder.action("Patrol", "patrol");
    let attack_branch = builder.sequence("AttackBranch", &[can_attack, attack]);
    let root = builder.reactive_selector("Root", AbortPolicy::LowerPriority, &[attack_branch, patrol]);
    builder.set_root(root);
    let definition = builder.build().unwrap();
    let (mut sim, entity) = Sim::with_definition(
        definition,
        BehaviorTreeConfig { emit_lifecycle_messages: true, ..Default::default() },
    );
    sim.activate();
    sim.activated = true;
    let visible_key = sim.library.definitions[0].find_blackboard_key("visible").unwrap();
    sim.blackboard(entity).set(visible_key, BlackboardValue::Bool(false)).unwrap();
    sim.handlers.register_condition(
        "can_attack",
        Rc::new(move |_world, blackboard| blackboard.get_bool(visible_key).unwrap_or(false)),
    );
    sim.handlers.register_action(
        "attack",
        instant(|ctx| {
            ctx.world.log.push("attack");
            BehaviorStatus::Success
        }),
    );
    sim.handlers.register_action(
        "patrol",
        stateful(
            |ctx| {
                ctx.world.log.push("patrol_start");
                BehaviorStatus::Running
            },
            |_ctx| BehaviorStatus::Running,
            |ctx| ctx.world.log.push("patrol_abort"),
        ),
    );

    sim.update();
    assert_eq!(sim.world.log, vec!["patrol_start"]);

    sim.blackboard(entity).set(visible_key, BlackboardValue::Bool(true)).unwrap();
    sim.wake(entity, "target visible");

    sim.update();
    assert!(sim.world.log.contains(&"patrol_abort"));
    assert!(sim.world.log.contains(&"attack"));
    assert!(!sim.delivered.branch_aborted.is_empty());
}

#[test]
fn guard_without_self_abort_keeps_running_child_alive() {
    let mut builder = BehaviorTreeBuilder::new("guard_without_self_abort");
    let allowed = builder.bool_key("allowed", BlackboardKeyDirection::Input, false, Some(true));
    let action = builder.action("Action", "action");
    let root = builder.guard("Guard", "is_allowed", AbortPolicy::LowerPriority, &[allowed], action);
    builder.set_root(root);
    let definition = builder.build().unwrap();
    let (mut sim, entity) = Sim::with_definition(definition, BehaviorTreeConfig::default());
    sim.handlers.register_condition(
        "is_allowed",
        Rc::new(move |_world, blackboard| blackboard.get_bool(allowed).unwrap_or(false)),
    );
    sim.handlers.register_action(
        "action",
        stateful(
            |ctx| {
                ctx.world.log.push("start");
                BehaviorStatus::Running
            },
            |ctx| {
                ctx.world.log.push("tick");
                BehaviorStatus::Running
            },
            |ctx| ctx.world.log.push("abort"),
        ),
    );

    sim.update();
    assert_eq!(sim.world.log, vec!["start"]);

    sim.blackboard(entity).set(allowed, BlackboardValue::Bool(false)).unwrap();
    sim.wake(entity, "guard changed");

    sim.update();
    assert_eq!(sim.world.log, vec!["start", "tick"]);
    assert!(!sim.world.log.contains(&"abort"));
    assert_eq!(sim.instance(entity).status, BehaviorTreeRunState::Running);
}

#[test]
fn parallel_success_threshold_aborts_running_sibling() {
    let mut builder = BehaviorTreeBuilder::new("parallel");
    let win = builder.action("Win", "win");
    let wait = builder.action("Wait", "wait");
    let root = builder.parallel("root", ParallelPolicy::any_success_all_failure(), &[win, wait]);
    builder.set_root(root);
    let definition = builder.build().unwrap();
    let (mut sim, _) = Sim::with_definition(definition, BehaviorTreeConfig::default());
    sim.handlers.register_action("win", instant(|_ctx| BehaviorStatus::Success));
    sim.handlers.register_action(
        "wait",
        stateful(
            |ctx| {
                ctx.world.log.push("wait_start");
                BehaviorStatus::Running
            },
            |_ctx| BehaviorStatus::Running,
            |ctx| ctx.world.log.push("wait_abort"),
        ),
    );

    sim.update();
    assert_eq!(sim.world.log, vec!["wait_start", "wait_abort"]);
}

#[test]
fn subtree_remap_reuses_parent_blackboard_keys() {
    let mut subtree = BehaviorTreeBuilder::new("job_subtree");
    let ready = subtree.bool_key("ready", BlackboardKeyDirection::Input, true, Some(false));
    let _result = subtree.text_key("result", BlackboardKeyDirection::Output, false, None);
    let do_job = subtree.action("DoJob", "do_job");
    let guard = subtree.blackboard_condition("ReadyGuard", ready, BlackboardCondition::IsTrue, AbortPolicy::Both, do_job);
    subtree.set_root(guard);
    let subtree_definition = subtree.build().unwrap();

    let mut root = BehaviorTreeBuilder::new("root");
    let parent_ready = root.bool_key("ready", BlackboardKeyDirection::Input, true, Some(false));
    let parent_result = root.text_key("result", BlackboardKeyDirection::Output, false, None);
    let subtree_root = root
        .inline_subtree(
            "worker",
            &subtree_definition,
            &[SubtreeRemap::new("ready", parent_ready), SubtreeRemap::new("result", parent_result)],
        )
        .unwrap();
    root.set_root(subtree_root);

    let definition = root.build().unwrap();
    let (mut sim, entity) = Sim::with_definition(definition, BehaviorTreeConfig::default());
    sim.activate();
    sim.activated = true;
    sim.blackboard(entity).set(parent_ready, BlackboardValue::Bool(true)).unwrap();
    sim.handlers.register_action(
        "do_job",
        instant(move |ctx| {
            ctx.blackboard.set(parent_result, BlackboardValue::Text("done".to_owned())).unwrap();
            BehaviorStatus::Success
        }),
    );

    sim.update();
    assert_eq!(sim.blackboard(entity).get_text(parent_result), Some("done"));
}

#[test]
fn manual_tick_mode_sleeps_until_woken() {
    let definition = single_action_tree("manual", "root");
    let (mut sim, entity) = Sim::with_definition(
        definition,
        BehaviorTreeConfig { tick_mode: TickMode::Manual, ..Default::default() },
    );
    sim.handlers.register_action("root", instant(|_ctx| BehaviorStatus::Running));

    sim.update();
    let first_tick_count = sim.instance(entity).metrics.tick_count;
    sim.update();
    let second_tick_count = sim.instance(entity).metrics.tick_count;
    assert_eq!(first_tick_count, second_tick_count);

    sim.wake(entity, "manual poke");
    sim.update();
    let third_tick_count = sim.instance(entity).metrics.tick_count;
    assert!(third_tick_count > second_tick_count);
}

#[test]
fn completed_tree_stays_dormant_until_woken_when_restart_disabled() {
    let definition = single_action_tree("restart", "root");
    let (mut sim, entity) = Sim::with_definition(definition, BehaviorTreeConfig::default());
    sim.handlers.register_action("root", instant(|_ctx| BehaviorStatus::Success));

    sim.update();
    let first_tick_count = sim.instance(entity).metrics.tick_count;
    sim.update();
    let second_tick_count = sim.instance(entity).metrics.tick_count;
    assert_eq!(first_tick_count, second_tick_count);

    sim.wake(entity, "restart requested");
    sim.update();
    let third_tick_count = sim.instance(entity).metrics.tick_count;
    assert!(third_tick_count > second_tick_count);
}

#[test]
fn interval_tick_mode_respects_initial_phase_offset() {
    let definition = single_action_tree("interval", "root");
    let (mut sim, entity) = Sim::with_definition(
        definition,
        BehaviorTreeConfig {
            tick_mode: TickMode::Interval { period_micros: 1_000_000, phase_offset_micros: 350_000 },
            ..Default::default()
        },
    );
    sim.handlers.register_action("root", instant(|_ctx| BehaviorStatus::Running));
    sim.activate();
    let instance = sim.instance(entity);
    assert!(!instance.wake_requested);
    assert_eq!(instance.next_tick_at, 350_000);
}

#[test]
fn lifecycle_messages_stay_silent_by_default() {
    let definition = single_action_tree("messages_default", "root");
    let (mut sim, _) = Sim::with_definition(definition, BehaviorTreeConfig::default());
    sim.handlers.register_action("root", instant(|_ctx| BehaviorStatus::Success));
    sim.update();
    assert!(sim.delivered.node_started.is_empty());
    assert!(sim.delivered.node_finished.is_empty());
    assert!(sim.delivered.tree_completed.is_empty());
}

#[test]
fn lifecycle_messages_are_emitted_when_enabled() {
    let mut builder = BehaviorTreeBuilder::new("messages");
    let ready = builder.bool_key("ready", BlackboardKeyDirection::Input, false, Some(true));
    let condition = builder.condition_with_watch_keys("Ready", "ready", &[ready]);
    let action = builder.action("Action", "act");
    let root = builder.sequence("Root", &[condition, action]);
    builder.set_root(root);
    let definition = builder.build().unwrap();
    let (mut sim, _) = Sim::with_definition(
        definition,
        BehaviorTreeConfig { emit_lifecycle_messages: true, ..Default::default() },
    );
    sim.handlers.register_condition("ready", Rc::new(|_world, _blackboard| true));
    sim.handlers.register_action("act", instant(|_ctx| BehaviorStatus::Success));
    sim.update();
    assert!(!sim.delivered.node_started.is_empty());
    assert!(!sim.delivered.node_finished.is_empty());
    assert!(!sim.delivered.tree_completed.is_empty());
}

#[test]
fn services_run_without_panicking() {
    let mut builder = BehaviorTreeBuilder::new("services");
    let action = builder.action("Work", "work");
    let root = builder.repeater("Root", Some(2), action);
    builder.add_service(root, ServiceBinding::new("sense", "sense", 0));
    builder.set_root(root);
    let definition = builder.build().unwrap();
    let (mut sim, _) = Sim::with_definition(definition, BehaviorTreeConfig::default());
    sim.handlers.register_action("work", instant(|_ctx| BehaviorStatus::Success));
    sim.handlers.register_service("sense", Rc::new(|world, _blackboard| world.service_runs += 1));
    sim.update();
    sim.update();
    assert!(sim.world.service_runs > 0);
}

#[test]
fn blackboard_change_wakes_tree() {
    let mut builder = BehaviorTreeBuilder::new("wake");
    let alarm = builder.bool_key("alarm", BlackboardKeyDirection::Input, false, Some(false));
    let root = builder.condition_with_watch_keys("Alarm", "alarm", &[alarm]);
    builder.set_root(root);
    let definition = builder.build().unwrap();
    let (mut sim, entity) = Sim::with_definition(definition, BehaviorTreeConfig::default());
    sim.handlers.register_condition(
        "alarm",
        Rc::new(move |_world, blackboard| blackboard.get_bool(alarm).unwrap_or(false)),
    );
    sim.update();
    let before = sim.instance(entity).metrics.tick_count;
    sim.blackboard(entity).set(alarm, BlackboardValue::Bool(true)).unwrap();
    sim.prepare();
    let instance = sim.instance(entity);
    assert!(instance.wake_requested);
    assert_eq!(instance.metrics.tick_count, before);
}

#[test]
fn simple_mass_agent_smoke_runs() {
    let definition = single_action_tree("mass", "idle");
    let mut sim = Sim::new();
    let id = sim.library.register(definition).unwrap();
    sim.handlers.register_action("idle", instant(|_ctx| BehaviorStatus::Success));
    for _ in 0..512 {
        sim.spawn(BehaviorTreeAgent::new(id).with_config(BehaviorTreeConfig {
            tick_mode: TickMode::Interval { period_micros: 16_000, phase_offset_micros: 0 },
            restart_on_completion: true,
            ..Default::default()
        }));
    }
    for _ in 0..5 {
        sim.update();
    }
    let total_ticks: u64 = sim
        .agents
        .iter()
        .map(|agent| agent.instance.as_ref().unwrap().metrics.tick_count)
        .sum();
    assert!(total_ticks > 0);
}

fn counting_action(label: &'static str, results: &'static [BehaviorStatus]) -> Action {
    instant(move |ctx| {
        ctx.world.log.push(label);
        let n = ctx.world.log.iter().filter(|entry| **entry == label).count();
        results[(n - 1).min(results.len() - 1)]
    })
}

fn decorated(build: impl FnOnce(&mut BehaviorTreeBuilder, NodeId) -> NodeId) -> BehaviorTreeDefinition {
    let mut builder = BehaviorTreeBuilder::new("decorated");
    let child = builder.action("Child", "child");
    let root = build(&mut builder, child);
    builder.set_root(root);
    builder.build().unwrap()
}

fn restarting() -> BehaviorTreeConfig {
    BehaviorTreeConfig { restart_on_completion: true, ..Default::default() }
}

fn child_calls(sim: &Sim) -> usize {
    sim.world.log.iter().filter(|entry| **entry == "child").count()
}

#[test]
fn inverter_swaps_the_child_result() {
    let definition = decorated(|b, child| b.inverter("Not", child));
    let (mut sim, entity) = Sim::with_definition(definition, BehaviorTreeConfig::default());
    sim.handlers.register_action("child", counting_action("child", &[BehaviorStatus::Success]));
    sim.update();
    assert_eq!(sim.instance(entity).status, BehaviorTreeRunState::Failure);
}

#[test]
fn force_success_hides_failure_and_force_failure_hides_success() {
    let definition = decorated(|b, child| b.force_success("Ok", child));
    let (mut sim, entity) = Sim::with_definition(definition, BehaviorTreeConfig::default());
    sim.handlers.register_action("child", counting_action("child", &[BehaviorStatus::Failure]));
    sim.update();
    assert_eq!(sim.instance(entity).status, BehaviorTreeRunState::Success);

    let definition = decorated(|b, child| b.force_failure("No", child));
    let (mut sim, entity) = Sim::with_definition(definition, BehaviorTreeConfig::default());
    sim.handlers.register_action("child", counting_action("child", &[BehaviorStatus::Success]));
    sim.update();
    assert_eq!(sim.instance(entity).status, BehaviorTreeRunState::Failure);
}

#[test]
fn timeout_aborts_a_child_that_runs_too_long() {
    let definition = decorated(|b, child| b.timeout("Limit", 100_000, child));
    let (mut sim, entity) = Sim::with_definition(definition, BehaviorTreeConfig::default());
    sim.handlers.register_action(
        "child",
        stateful(
            |_ctx| BehaviorStatus::Running,
            |_ctx| BehaviorStatus::Running,
            |ctx| ctx.world.log.push("aborted"),
        ),
    );
    for _ in 0..6 {
        sim.update();
    }
    assert_eq!(sim.instance(entity).status, BehaviorTreeRunState::Running);
    assert!(sim.world.log.is_empty());
    // 7 frames of 16_667 µs pass the 100 ms timeout.
    sim.update();
    assert_eq!(sim.world.log, vec!["aborted"]);
    assert_eq!(sim.instance(entity).status, BehaviorTreeRunState::Failure);
    assert_eq!(sim.instance(entity).last_abort_reason, "timeout");
}

#[test]
fn cooldown_denies_reentry_until_it_expires() {
    let definition = decorated(|b, child| b.cooldown("Rest", 100_000, child));
    let (mut sim, entity) = Sim::with_definition(definition, restarting());
    sim.handlers.register_action("child", counting_action("child", &[BehaviorStatus::Success]));
    sim.update();
    assert_eq!(child_calls(&sim), 1);
    for _ in 0..5 {
        sim.update();
        assert_eq!(sim.instance(entity).status, BehaviorTreeRunState::Failure);
    }
    assert_eq!(child_calls(&sim), 1);
    for _ in 0..2 {
        sim.update();
    }
    assert_eq!(child_calls(&sim), 2);
}

#[test]
fn retry_reenters_a_failed_child_until_attempts_run_out() {
    let definition = decorated(|b, child| b.retry("Again", 2, child));
    let (mut sim, entity) = Sim::with_definition(definition, BehaviorTreeConfig::default());
    sim.handlers.register_action(
        "child",
        counting_action("child", &[BehaviorStatus::Failure, BehaviorStatus::Failure, BehaviorStatus::Success]),
    );
    sim.update();
    sim.update();
    assert_eq!(sim.instance(entity).status, BehaviorTreeRunState::Running);
    sim.update();
    assert_eq!(sim.instance(entity).status, BehaviorTreeRunState::Success);
    assert_eq!(child_calls(&sim), 3);

    let definition = decorated(|b, child| b.retry("Again", 1, child));
    let (mut sim, entity) = Sim::with_definition(definition, BehaviorTreeConfig::default());
    sim.handlers.register_action("child", counting_action("child", &[BehaviorStatus::Failure]));
    sim.update();
    assert_eq!(sim.instance(entity).status, BehaviorTreeRunState::Running);
    sim.update();
    assert_eq!(sim.instance(entity).status, BehaviorTreeRunState::Failure);
    assert_eq!(child_calls(&sim), 2);
}

#[test]
fn repeater_runs_its_child_up_to_the_limit() {
    let definition = decorated(|b, child| b.repeater("Thrice", Some(3), child));
    let (mut sim, entity) = Sim::with_definition(definition, BehaviorTreeConfig::default());
    sim.handlers.register_action("child", counting_action("child", &[BehaviorStatus::Failure]));
    sim.update();
    sim.update();
    assert_eq!(sim.instance(entity).status, BehaviorTreeRunState::Running);
    sim.update();
    assert_eq!(sim.instance(entity).status, BehaviorTreeRunState::Success);
    assert_eq!(child_calls(&sim), 3);
}

#[test]
fn until_decorators_stop_on_their_result() {
    let definition = decorated(|b, child| b.until_success("Try", None, child));
    let (mut sim, entity) = Sim::with_definition(definition, BehaviorTreeConfig::default());
    sim.handlers.register_action(
        "child",
        counting_action("child", &[BehaviorStatus::Failure, BehaviorStatus::Success]),
    );
    sim.update();
    assert_eq!(sim.instance(entity).status, BehaviorTreeRunState::Running);
    sim.update();
    assert_eq!(sim.instance(entity).status, BehaviorTreeRunState::Success);

    let definition = decorated(|b, child| b.until_failure("Loop", Some(2), child));
    let (mut sim, entity) = Sim::with_definition(definition, BehaviorTreeConfig::default());
    sim.handlers.register_action("child", counting_action("child", &[BehaviorStatus::Success]));
    sim.update();
    sim.update();
    assert_eq!(sim.instance(entity).status, BehaviorTreeRunState::Failure);
    assert_eq!(child_calls(&sim), 2);
}

#[test]
fn limiter_stops_entering_its_child() {
    let definition = decorated(|b, child| b.limiter("Once", 1, child));
    let (mut sim, entity) = Sim::with_definition(definition, restarting());
    sim.handlers.register_action("child", counting_action("child", &[BehaviorStatus::Success]));
    sim.update();
    assert_eq!(sim.instance(entity).status, BehaviorTreeRunState::Success);
    sim.update();
    sim.update();
    assert_eq!(sim.instance(entity).status, BehaviorTreeRunState::Failure);
    assert_eq!(child_calls(&sim), 1);
}

#[test]
fn delay_waits_before_entering_its_child() {
    let definition = decorated(|b, child| b.delay("Wait", 50_000, child));
    let (mut sim, entity) = Sim::with_definition(definition, BehaviorTreeConfig::default());
    sim.handlers.register_action("child", counting_action("child", &[BehaviorStatus::Success]));
    for _ in 0..3 {
        sim.update();
        assert_eq!(sim.instance(entity).status, BehaviorTreeRunState::Running);
    }
    assert_eq!(child_calls(&sim), 0);
    sim.update();
    assert_eq!(child_calls(&sim), 1);
    assert_eq!(sim.instance(entity).status, BehaviorTreeRunState::Success);
}

#[test]
fn run_once_reports_its_stored_status_afterwards() {
    let definition = decorated(|b, child| b.run_once("Once", BehaviorStatus::Failure, child));
    let (mut sim, entity) = Sim::with_definition(definition, restarting());
    sim.handlers.register_action("child", counting_action("child", &[BehaviorStatus::Success]));
    sim.update();
    assert_eq!(sim.instance(entity).status, BehaviorTreeRunState::Success);
    sim.update();
    assert_eq!(sim.instance(entity).status, BehaviorTreeRunState::Failure);
    assert_eq!(child_calls(&sim), 1);
}

#[test]
fn guard_with_self_abort_stops_its_running_child() {
    let mut builder = BehaviorTreeBuilder::new("guard_self");
    let allowed = builder.bool_key("allowed", BlackboardKeyDirection::Input, false, Some(true));
    let action = builder.action("Action", "action");
    let root = builder.guard("Guard", "is_allowed", AbortPolicy::SelfOnly, &[allowed], action);
    builder.set_root(root);
    let (mut sim, entity) = Sim::with_definition(builder.build().unwrap(), BehaviorTreeConfig::default());
    sim.handlers.register_condition(
        "is_allowed",
        Rc::new(move |_world, blackboard| blackboard.get_bool(allowed).unwrap_or(false)),
    );
    sim.handlers.register_action(
        "action",
        stateful(|_ctx| BehaviorStatus::Running, |_ctx| BehaviorStatus::Running, |ctx| ctx.world.log.push("abort")),
    );
    sim.update();
    sim.blackboard(entity).set(allowed, BlackboardValue::Bool(false)).unwrap();
    sim.update();
    assert_eq!(sim.world.log, vec!["abort"]);
    assert_eq!(sim.instance(entity).status, BehaviorTreeRunState::Failure);
    assert_eq!(sim.instance(entity).last_abort_reason, "guard failed");
}

#[test]
fn running_tree_reports_its_active_path_root_first() {
    let mut builder = BehaviorTreeBuilder::new("path");
    let a = builder.action("A", "fail");
    let b = builder.action("B", "run");
    let seq = builder.sequence("Seq", &[b]);
    let root = builder.selector("Root", &[a, seq]);
    builder.set_root(root);
    let (mut sim, entity) = Sim::with_definition(builder.build().unwrap(), BehaviorTreeConfig::default());
    sim.handlers.register_action("fail", instant(|_ctx| BehaviorStatus::Failure));
    sim.handlers.register_action("run", instant(|_ctx| BehaviorStatus::Running));
    sim.update();
    let instance = sim.instance(entity);
    assert_eq!(instance.active_path, vec![root, seq, b]);
    assert_eq!(instance.last_running_leaf, Some(b));
    assert_eq!(instance.status, BehaviorTreeRunState::Running);
}

#[test]
fn missing_action_handler_fails_the_leaf() {
    let definition = single_action_tree("unregistered", "nobody");
    let (mut sim, entity) = Sim::with_definition(definition, BehaviorTreeConfig::default());
    sim.update();
    assert_eq!(sim.instance(entity).status, BehaviorTreeRunState::Failure);
}

#[test]
fn reset_request_puts_the_tree_back_to_idle_and_wakes_it() {
    let definition = single_action_tree("reset", "root");
    let (mut sim, entity) = Sim::with_definition(definition, BehaviorTreeConfig::default());
    sim.handlers.register_action("root", counting_action("root", &[BehaviorStatus::Success]));
    sim.update();
    sim.update();
    assert_eq!(sim.instance(entity).metrics.tick_count, 1);
    sim.resets.push(TreeResetRequested::new(entity, "again"));
    sim.prepare();
    let instance = sim.instance(entity);
    assert_eq!(instance.status, BehaviorTreeRunState::Idle);
    assert!(instance.wake_requested);
    assert_eq!(instance.wake_reason, "again");
    assert!(instance.node_states.iter().all(|state| state.execution_count == 0));
    sim.evaluate();
    assert_eq!(sim.instance(entity).metrics.tick_count, 2);
}

#[test]
fn async_resolution_completes_a_waiting_action() {
    let definition = single_action_tree("async", "work");
    let (mut sim, entity) = Sim::with_definition(definition, BehaviorTreeConfig::default());
    sim.handlers.register_action(
        "work",
        stateful(
            |ctx| {
                let ticket = request_async_ticket(ctx.node_state, ctx.ticket_counter);
                ctx.world.tickets.push(ticket);
                BehaviorStatus::Running
            },
            |ctx| take_async_resolution(ctx.node_state).unwrap_or(BehaviorStatus::Running),
            |_ctx| {},
        ),
    );
    sim.update();
    sim.update();
    assert_eq!(sim.world.tickets, vec![ActionTicket(1)]);
    assert_eq!(sim.instance(entity).status, BehaviorTreeRunState::Running);
    sim.resolutions.push(ActionResolution::new(entity, ActionTicket(1), BehaviorStatus::Success));
    sim.update();
    assert_eq!(sim.instance(entity).status, BehaviorTreeRunState::Success);
    // An unknown ticket changes nothing.
    sim.resolutions.push(ActionResolution::new(entity, ActionTicket(9), BehaviorStatus::Failure));
    sim.prepare();
    assert!(!sim.instance(entity).wake_requested);
}

#[test]
fn blackboard_messages_carry_recorded_changes() {
    let mut builder = BehaviorTreeBuilder::new("writes");
    let level = builder.int_key("level", BlackboardKeyDirection::Output, false, Some(0));
    let root = builder.action("Write", "write");
    builder.set_root(root);
    let (mut sim, entity) = Sim::with_definition(
        builder.build().unwrap(),
        BehaviorTreeConfig { emit_blackboard_messages: true, ..Default::default() },
    );
    sim.handlers.register_action(
        "write",
        instant(move |ctx| {
            ctx.blackboard.set(level, BlackboardValue::Int(5)).unwrap();
            BehaviorStatus::Success
        }),
    );
    sim.update();
    assert_eq!(sim.delivered.blackboard_changed.len(), 1);
    let change = &sim.delivered.blackboard_changed[0];
    assert_eq!(change.entity, entity);
    assert_eq!(change.name, "level");
    assert_eq!(change.revision, 1);
    assert!(matches!(change.new_value, Some(BlackboardValue::Int(5))));
    assert!(sim.blackboard(entity).recent_changes.is_empty());
    assert_eq!(sim.instance(entity).observed_blackboard_revision, 1);
}

#[test]
fn service_that_changes_the_blackboard_wakes_the_tree() {
    let mut builder = BehaviorTreeBuilder::new("sensing");
    let seen = builder.int_key("seen", BlackboardKeyDirection::Output, false, Some(0));
    let root = builder.action("Idle", "idle");
    builder.add_service(root, ServiceBinding::new("scan", "scan", 0));
    builder.set_root(root);
    let (mut sim, entity) = Sim::with_definition(
        builder.build().unwrap(),
        BehaviorTreeConfig { tick_mode: TickMode::Manual, ..Default::default() },
    );
    sim.handlers.register_action("idle", instant(|_ctx| BehaviorStatus::Running));
    sim.handlers.register_service(
        "scan",
        Rc::new(move |world, blackboard| {
            world.service_runs += 1;
            blackboard.set(seen, BlackboardValue::Int(world.service_runs as i32)).unwrap();
        }),
    );
    sim.update();
    let instance = sim.instance(entity);
    assert!(instance.wake_requested);
    assert_eq!(instance.wake_reason, "service 'scan'");
    assert_eq!(instance.metrics.service_run_count, 1);
}

#[test]
fn reactive_sequence_aborts_the_running_child_when_an_earlier_one_fails() {
    let mut builder = BehaviorTreeBuilder::new("reactive_sequence");
    let ok = builder.bool_key("ok", BlackboardKeyDirection::Input, false, Some(true));
    let check = builder.condition("Check", "check");
    let work = builder.action("Work", "work");
    let root = builder.reactive_sequence("Root", &[check, work]);
    builder.set_root(root);
    let (mut sim, entity) = Sim::with_definition(builder.build().unwrap(), BehaviorTreeConfig::default());
    sim.handlers.register_condition(
        "check",
        Rc::new(move |_world, blackboard| blackboard.get_bool(ok).unwrap_or(false)),
    );
    sim.handlers.register_action(
        "work",
        stateful(|_ctx| BehaviorStatus::Running, |_ctx| BehaviorStatus::Running, |ctx| ctx.world.log.push("abort")),
    );
    sim.update();
    assert_eq!(sim.instance(entity).status, BehaviorTreeRunState::Running);
    sim.blackboard(entity).set(ok, BlackboardValue::Bool(false)).unwrap();
    sim.update();
    assert_eq!(sim.world.log, vec!["abort"]);
    assert_eq!(sim.instance(entity).status, BehaviorTreeRunState::Failure);
}

#[test]
fn trace_keeps_only_the_latest_entries() {
    let definition = single_action_tree("trace", "root");
    let (mut sim, entity) = Sim::with_definition(
        definition,
        BehaviorTreeConfig { trace_capacity: 3, restart_on_completion: true, ..Default::default() },
    );
    sim.handlers.register_action("root", instant(|_ctx| BehaviorStatus::Success));
    for _ in 0..5 {
        sim.update();
    }
    let trace = &sim.instance(entity).trace;
    assert_eq!(trace.entries.len(), 3);
    assert_eq!(trace.entries[2].frame, 4);
}

#[test]
fn registering_a_handler_again_replaces_it() {
    let mut handlers = Handlers::default();
    handlers.register_action("a", instant(|_ctx| BehaviorStatus::Failure));
    handlers.register_action("b", instant(|_ctx| BehaviorStatus::Running));
    handlers.register_action("a", instant(|_ctx| BehaviorStatus::Success));
    assert_eq!(handlers.actions.len(), 2);
    assert_eq!(handlers.actions[0].0 .0, "a");
    assert!(handlers.action(&ActionKey("c".to_owned())).is_none());
    assert!(handlers.action(&ActionKey("b".to_owned())).is_some());
    let mut world = World::default();
    let mut blackboard = BehaviorTreeBlackboard::from_schema(&Default::default());
    let mut state = NodeRuntimeState::default();
    let mut counter = 0;
    let mut ctx = ActionCtx { world: &mut world, blackboard: &mut blackboard, node_state: &mut state, ticket_counter: &mut counter };
    let handler = handlers.action(&ActionKey("a".to_owned())).unwrap();
    assert_eq!((handler.on_start)(&mut ctx), BehaviorStatus::Success);
}

#[test]
fn definition_swap_preserves_blackboard_values_by_name() {
    let mut first = BehaviorTreeBuilder::new("first");
    let alert = first.bool_key("alert", BlackboardKeyDirection::InOut, false, Some(false));
    let root = first.action("Root", "root");
    first.set_root(root);
    let mut second = BehaviorTreeBuilder::new("second");
    let _other = second.int_key("other", BlackboardKeyDirection::Local, false, Some(1));
    let second_alert = second.bool_key("alert", BlackboardKeyDirection::InOut, false, Some(false));
    let root = second.action("Root", "root");
    second.set_root(root);
    let mut sim = Sim::new();
    let first_id = sim.library.register(first.build().unwrap()).unwrap();
    let second_id = sim.library.register(second.build().unwrap()).unwrap();
    sim.handlers.register_action("root", instant(|_ctx| BehaviorStatus::Running));
    let entity = sim.spawn(BehaviorTreeAgent::new(first_id));
    sim.update();
    sim.blackboard(entity).set(alert, BlackboardValue::Bool(true)).unwrap();
    sim.agents[entity.0 as usize].agent.definition = second_id;
    sim.update();
    assert_eq!(sim.instance(entity).definition, second_id);
    assert_eq!(sim.blackboard(entity).get_bool(second_alert), Some(true));
    assert_eq!(sim.blackboard(entity).get_int(BlackboardKeyId(0)), Some(1));
}

#[test]
fn interval_tree_ticks_once_per_period() {
    let definition = single_action_tree("interval_period", "root");
    let (mut sim, entity) = Sim::with_definition(
        definition,
        BehaviorTreeConfig {
            tick_mode: TickMode::Interval { period_micros: 50_000, phase_offset_micros: 0 },
            ..Default::default()
        },
    );
    sim.handlers.register_action("root", instant(|_ctx| BehaviorStatus::Running));
    sim.update();
    assert_eq!(sim.instance(entity).metrics.tick_count, 1);
    assert_eq!(sim.instance(entity).next_tick_at, 50_000);
    for _ in 0..2 {
        sim.update();
    }
    assert_eq!(sim.instance(entity).metrics.tick_count, 1);
    // The fourth frame starts at 50_001 µs.
    sim.update();
    assert_eq!(sim.instance(entity).metrics.tick_count, 2);
    assert_eq!(sim.instance(entity).next_tick_at, 100_001);
}

#[test]
fn interval_shorter_than_a_millisecond_is_raised() {
    let definition = single_action_tree("fast", "root");
    let (mut sim, entity) = Sim::with_definition(
        definition,
        BehaviorTreeConfig {
            tick_mode: TickMode::Interval { period_micros: 10, phase_offset_micros: 0 },
            ..Default::default()
        },
    );
    sim.handlers.register_action("root", instant(|_ctx| BehaviorStatus::Running));
    sim.update();
    assert_eq!(sim.instance(entity).next_tick_at, 1_000);
}

#[test]
fn unwatched_blackboard_change_does_not_wake() {
    let mut builder = BehaviorTreeBuilder::new("selective");
    let alarm = builder.bool_key("alarm", BlackboardKeyDirection::Input, false, Some(false));
    let noise = builder.int_key("noise", BlackboardKeyDirection::Input, false, Some(0));
    let root = builder.condition_with_watch_keys("Alarm", "alarm", &[alarm]);
    builder.set_root(root);
    let (mut sim, entity) = Sim::with_definition(
        builder.build().unwrap(),
        BehaviorTreeConfig { tick_mode: TickMode::Manual, ..Default::default() },
    );
    sim.handlers.register_condition("alarm", Rc::new(|_world, _blackboard| false));
    sim.update();
    sim.blackboard(entity).set(noise, BlackboardValue::Int(3)).unwrap();
    sim.prepare();
    assert!(!sim.instance(entity).wake_requested);
    sim.blackboard(entity).set(alarm, BlackboardValue::Bool(true)).unwrap();
    sim.prepare();
    assert!(sim.instance(entity).wake_requested);
    assert_eq!(sim.instance(entity).wake_reason, "blackboard changed");
}

#[test]
fn end_of_frame_drops_dirty_keys_and_unsent_changes() {
    let mut builder = BehaviorTreeBuilder::new("cleanup");
    let level = builder.int_key("level", BlackboardKeyDirection::Output, false, Some(0));
    let root = builder.action("Idle", "idle");
    builder.set_root(root);
    let (mut sim, entity) = Sim::with_definition(builder.build().unwrap(), BehaviorTreeConfig::default());
    sim.handlers.register_action("idle", instant(|_ctx| BehaviorStatus::Running));
    sim.update();
    sim.blackboard(entity).set(level, BlackboardValue::Int(2)).unwrap();
    assert_eq!(sim.blackboard(entity).dirty_keys.len(), 1);
    end_of_frame(sim.blackboard(entity), false);
    assert!(sim.blackboard(entity).dirty_keys.is_empty());
    assert!(sim.blackboard(entity).recent_changes.is_empty());
    sim.blackboard(entity).set(level, BlackboardValue::Int(3)).unwrap();
    end_of_frame(sim.blackboard(entity), true);
    assert!(sim.blackboard(entity).dirty_keys.is_empty());
    assert_eq!(sim.blackboard(entity).recent_changes.len(), 1);
}

#[test]
fn registered_definitions_are_found_by_their_id() {
    let mut library = BehaviorTreeLibrary::default();
    let first = library.register(single_action_tree("first", "a")).unwrap();
    let second = library.register(single_action_tree("second", "b")).unwrap();
    assert_eq!(first.0, 0);
    assert_eq!(second.0, 1);
    assert_eq!(library.get(second).unwrap().name, "second");
    assert_eq!(library.get(first).unwrap().name, "first");
    assert!(library.get(saddle_ai_behavior_tree::definition::BehaviorTreeDefinitionId(2)).is_none());
}

#[test]
fn reactive_sequence_restarts_when_an_earlier_child_runs_again() {
    let mut builder = BehaviorTreeBuilder::new("reactive_restart");
    let first = builder.action("First", "first");
    let second = builder.action("Second", "second");
    let root = builder.reactive_sequence("Root", &[first, second]);
    builder.set_root(root);
    let (mut sim, entity) = Sim::with_definition(builder.build().unwrap(), BehaviorTreeConfig::default());
    sim.handlers.register_action(
        "first",
        counting_action("first", &[BehaviorStatus::Success, BehaviorStatus::Running]),
    );
    sim.handlers.register_action(
        "second",
        stateful(|_ctx| BehaviorStatus::Running, |_ctx| BehaviorStatus::Running, |ctx| ctx.world.log.push("second_abort")),
    );
    sim.update();
    assert_eq!(sim.instance(entity).node_states[root.0 as usize].cursor, 1);
    sim.update();
    assert!(sim.world.log.contains(&"second_abort"));
    assert_eq!(sim.instance(entity).node_states[root.0 as usize].cursor, 0);
    assert_eq!(sim.instance(entity).last_abort_reason, "reactive sequence restart");
    assert_eq!(sim.instance(entity).active_path, vec![root, first]);
}

fn patrol_tree() -> BehaviorTreeDefinition {
    let mut builder = BehaviorTreeBuilder::new("patrol");
    let visible = builder.bool_key("visible", BlackboardKeyDirection::Input, false, Some(false));
    let can_attack = builder.condition_with_watch_keys("CanAttack", "can_attack", &[visible]);
    let attack = builder.action("Attack", "attack");
    let patrol = builder.action("Patrol", "patrol");
    let attack_branch = builder.sequence("AttackBranch", &[can_attack, attack]);
    let root = builder.reactive_selector("Root", AbortPolicy::LowerPriority, &[attack_branch, patrol]);
    builder.set_root(root);
    builder.build().unwrap()
}

fn patrol_sim(config: BehaviorTreeConfig) -> (Sim, EntityBits) {
    let (mut sim, entity) = Sim::with_definition(patrol_tree(), config);
    sim.handlers.register_condition("can_attack", Rc::new(|_world, _blackboard| false));
    sim.handlers.register_action("attack", instant(|_ctx| BehaviorStatus::Success));
    sim.handlers.register_action(
        "patrol",
        stateful(
            |ctx| {
                ctx.world.log.push("patrol_start");
                BehaviorStatus::Running
            },
            |ctx| {
                ctx.world.log.push("patrol_tick");
                BehaviorStatus::Running
            },
            |ctx| ctx.world.log.push("patrol_abort"),
        ),
    );
    (sim, entity)
}

#[test]
fn reactive_selector_aborts_nothing_when_nothing_was_running() {
    let (mut sim, entity) = patrol_sim(BehaviorTreeConfig { emit_lifecycle_messages: true, ..Default::default() });
    sim.update();
    assert_eq!(sim.world.log, vec!["patrol_start"]);
    assert_eq!(sim.instance(entity).metrics.abort_count, 0);
    assert!(sim.delivered.branch_aborted.is_empty());
}

#[test]
fn reactive_selector_ticks_its_running_child_on() {
    let (mut sim, _) = patrol_sim(BehaviorTreeConfig::default());
    sim.update();
    sim.update();
    assert_eq!(sim.world.log, vec!["patrol_start", "patrol_tick"]);
}

#[test]
fn finished_tree_has_an_empty_active_path() {
    let mut builder = BehaviorTreeBuilder::new("parallel_path");
    let win = builder.action("Win", "win");
    let wait = builder.action("Wait", "wait");
    let root = builder.parallel("root", ParallelPolicy::any_success_all_failure(), &[win, wait]);
    builder.set_root(root);
    let definition = builder.build().unwrap();
    let (mut sim, entity) = Sim::with_definition(definition, BehaviorTreeConfig::default());
    sim.handlers.register_action("win", instant(|_ctx| BehaviorStatus::Success));
    sim.handlers.register_action(
        "wait",
        stateful(|_ctx| BehaviorStatus::Running, |_ctx| BehaviorStatus::Running, |_ctx| {}),
    );
    sim.update();
    assert_eq!(sim.instance(entity).status, BehaviorTreeRunState::Success);
    assert!(sim.instance(entity).active_path.is_empty());
}

#[test]
fn cooldown_under_a_sequence_still_denies_reentry() {
    let definition = decorated(|b, child| {
        let rest = b.cooldown("Rest", 100_000, child);
        b.sequence("Seq", &[rest])
    });
    let (mut sim, entity) = Sim::with_definition(definition, restarting());
    sim.handlers.register_action("child", counting_action("child", &[BehaviorStatus::Success]));
    sim.update();
    assert_eq!(child_calls(&sim), 1);
    sim.update();
    assert_eq!(sim.instance(entity).status, BehaviorTreeRunState::Failure);
    assert_eq!(child_calls(&sim), 1);
}

#[test]
fn limiter_under_a_sequence_keeps_its_count() {
    let definition = decorated(|b, child| {
        let limited = b.limiter("Once", 1, child);
        b.sequence("Seq", &[limited])
    });
    let (mut sim, entity) = Sim::with_definition(definition, restarting());
    sim.handlers.register_action("child", counting_action("child", &[BehaviorStatus::Success]));
    sim.update();
    sim.update();
    sim.update();
    assert_eq!(child_calls(&sim), 1);
    assert_eq!(sim.instance(entity).status, BehaviorTreeRunState::Failure);
}

#[test]
fn restarted_parallel_ticks_its_children_again() {
    let mut builder = BehaviorTreeBuilder::new("parallel_restart");
    let a = builder.action("A", "a");
    let b = builder.action("B", "b");
    let root = builder.parallel("root", ParallelPolicy::all_success_any_failure(), &[a, b]);
    builder.set_root(root);
    let definition = builder.build().unwrap();
    let (mut sim, entity) = Sim::with_definition(definition, restarting());
    sim.handlers.register_action("a", counting_action("a", &[BehaviorStatus::Success]));
    sim.handlers.register_action("b", counting_action("b", &[BehaviorStatus::Success]));
    sim.update();
    sim.update();
    assert_eq!(sim.world.log, vec!["a", "b", "a", "b"]);
    assert_eq!(sim.instance(entity).status, BehaviorTreeRunState::Success);
}
