//! Node kinds of a behavior tree and their parameters.
//!
//! Durations are whole microseconds (`i64`); the application converts the
//! seconds it works in.
use vstd::prelude::*;

use crate::blackboard::{BlackboardCondition, BlackboardKeyId};
use crate::handlers::{ActionKey, ConditionKey, ServiceKey};

verus! {

#[derive(Clone, Copy, Debug, PartialEq, Eq, Structural, Hash)]
pub enum BehaviorStatus {
    Success,
    Failure,
    Running,
}

#[derive(Clone, Copy, Debug, PartialEq, Eq, Structural, Hash)]
pub enum AbortPolicy {
    /// No reactive abort monitoring.
    Off,
    SelfOnly,
    LowerPriority,
    Both,
}

impl AbortPolicy {
    /// A running branch is re-checked and aborted when its own guard fails.
    pub fn monitors_self(self) -> (r: bool)
        ensures
            r == (self == AbortPolicy::SelfOnly || self == AbortPolicy::Both),
    {
        match self {
            AbortPolicy::SelfOnly | AbortPolicy::Both => true,
            _ => false,
        }
    }

    /// Higher-priority branches may preempt a running lower-priority one.
    pub fn monitors_lower_priority(self) -> (r: bool)
        ensures
            r == (self == AbortPolicy::LowerPriority || self == AbortPolicy::Both),
    {
        match self {
            AbortPolicy::LowerPriority | AbortPolicy::Both => true,
            _ => false,
        }
    }
}

#[derive(Clone, Copy, Debug, PartialEq, Eq, Structural, Hash)]
pub enum SequenceKind {
    Sequence,
    SequenceWithMemory,
    ReactiveSequence,
}

#[derive(Clone, Copy, Debug, PartialEq, Eq, Structural, Hash)]
pub enum SelectorKind {
    Selector,
    SelectorWithMemory,
    ReactiveSelector { abort_policy: AbortPolicy },
}

#[derive(Clone, Copy, Debug, PartialEq, Eq, Structural, Hash)]
pub enum ParallelThreshold {
    Any,
    All,
    AtLeast(u16),
}

#[derive(Clone, Copy, Debug, PartialEq, Eq, Structural, Hash)]
pub struct ParallelPolicy {
    pub success: ParallelThreshold,
    pub failure: ParallelThreshold,
    pub abort_running_siblings: bool,
}

impl ParallelPolicy {
    pub fn all_success_any_failure() -> (r: Self)
        ensures
            r == (ParallelPolicy {
                success: ParallelThreshold::All,
                failure: ParallelThreshold::Any,
                abort_running_siblings: true,
            }),
    {
        ParallelPolicy {
            success: ParallelThreshold::All,
            failure: ParallelThreshold::Any,
            abort_running_siblings: true,
        }
    }

    pub fn any_success_all_failure() -> (r: Self)
        ensures
            r == (ParallelPolicy {
                success: ParallelThreshold::Any,
                failure: ParallelThreshold::All,
                abort_running_siblings: true,
            }),
    {
        ParallelPolicy {
            success: ParallelThreshold::Any,
            failure: ParallelThreshold::All,
            abort_running_siblings: true,
        }
    }
}

/// Whether `count` outcomes out of `child_count` children meet `threshold`.
pub open spec fn threshold_reached(threshold: ParallelThreshold, count: int, child_count: int) -> bool {
    match threshold {
        ParallelThreshold::Any => count > 0,
        ParallelThreshold::All => count == child_count,
        ParallelThreshold::AtLeast(required) => count >= required,
    }
}

#[derive(Debug)]
pub enum DecoratorKind {
    Inverter,
    Repeater { limit: Option<u32> },
    Timeout { micros: i64 },
    Cooldown { micros: i64 },
    Retry { attempts: u32 },
    ForceSuccess,
    ForceFailure,
    Succeeder,
    UntilSuccess { limit: Option<u32> },
    UntilFailure { limit: Option<u32> },
    Limiter { limit: u32 },
    Guard { condition: ConditionKey, abort_policy: AbortPolicy, watch_keys: Vec<BlackboardKeyId> },
    Delay { micros: i64 },
    RunOnce { completed_status: BehaviorStatus },
    BlackboardCondition {
        key: BlackboardKeyId,
        condition: BlackboardCondition,
        abort_policy: AbortPolicy,
    },
}

#[derive(Debug)]
pub enum NodeKind {
    Sequence(SequenceKind),
    Selector(SelectorKind),
    Parallel(ParallelPolicy),
    Decorator(DecoratorKind),
    Action(ActionKey),
    Condition { key: ConditionKey, watch_keys: Vec<BlackboardKeyId> },
}

/// The content of a decorator kind, with key lists as sequences.
pub enum DecoratorKindView {
    Inverter,
    Repeater { limit: Option<u32> },
    Timeout { micros: i64 },
    Cooldown { micros: i64 },
    Retry { attempts: u32 },
    ForceSuccess,
    ForceFailure,
    Succeeder,
    UntilSuccess { limit: Option<u32> },
    UntilFailure { limit: Option<u32> },
    Limiter { limit: u32 },
    Guard { handler: Seq<char>, abort_policy: AbortPolicy, watch_keys: Seq<BlackboardKeyId> },
    Delay { micros: i64 },
    RunOnce { completed_status: BehaviorStatus },
    BlackboardCondition {
        key: BlackboardKeyId,
        condition: BlackboardCondition,
        abort_policy: AbortPolicy,
    },
}

/// The content of a node kind, with names as character sequences.
pub enum NodeKindView {
    Sequence(SequenceKind),
    Selector(SelectorKind),
    Parallel(ParallelPolicy),
    Decorator(DecoratorKindView),
    Action(Seq<char>),
    Condition { key: Seq<char>, watch_keys: Seq<BlackboardKeyId> },
}

impl Clone for DecoratorKind {
    fn clone(&self) -> (r: Self)
        ensures
            r@ == self@,
    {
        match self {
            DecoratorKind::Inverter => DecoratorKind::Inverter,
            DecoratorKind::Repeater { limit } => DecoratorKind::Repeater { limit: *limit },
            DecoratorKind::Timeout { micros } => DecoratorKind::Timeout { micros: *micros },
            DecoratorKind::Cooldown { micros } => DecoratorKind::Cooldown { micros: *micros },
            DecoratorKind::Retry { attempts } => DecoratorKind::Retry { attempts: *attempts },
            DecoratorKind::ForceSuccess => DecoratorKind::ForceSuccess,
            DecoratorKind::ForceFailure => DecoratorKind::ForceFailure,
            DecoratorKind::Succeeder => DecoratorKind::Succeeder,
            DecoratorKind::UntilSuccess { limit } => DecoratorKind::UntilSuccess { limit: *limit },
            DecoratorKind::UntilFailure { limit } => DecoratorKind::UntilFailure { limit: *limit },
            DecoratorKind::Limiter { limit } => DecoratorKind::Limiter { limit: *limit },
            DecoratorKind::Guard { condition, abort_policy, watch_keys } => DecoratorKind::Guard {
                condition: condition.clone(),
                abort_policy: *abort_policy,
                watch_keys: keys_from_slice(watch_keys.as_slice()),
            },
            DecoratorKind::Delay { micros } => DecoratorKind::Delay { micros: *micros },
            DecoratorKind::RunOnce { completed_status } => DecoratorKind::RunOnce {
                completed_status: *completed_status,
            },
            DecoratorKind::BlackboardCondition { key, condition, abort_policy } =>
                DecoratorKind::BlackboardCondition {
                    key: *key,
                    condition: condition.clone(),
                    abort_policy: *abort_policy,
                },
        }
    }
}

impl Clone for NodeKind {
    fn clone(&self) -> (r: Self)
        ensures
            r@ == self@,
    {
        match self {
            NodeKind::Sequence(k) => NodeKind::Sequence(*k),
            NodeKind::Selector(k) => NodeKind::Selector(*k),
            NodeKind::Parallel(p) => NodeKind::Parallel(*p),
            NodeKind::Decorator(d) => NodeKind::Decorator(d.clone()),
            NodeKind::Action(key) => NodeKind::Action(key.clone()),
            NodeKind::Condition { key, watch_keys } => NodeKind::Condition {
                key: key.clone(),
                watch_keys: keys_from_slice(watch_keys.as_slice()),
            },
        }
    }
}

impl View for DecoratorKind {
    type V = DecoratorKindView;

    open spec fn view(&self) -> DecoratorKindView {
        match *self {
            DecoratorKind::Inverter => DecoratorKindView::Inverter,
            DecoratorKind::Repeater { limit } => DecoratorKindView::Repeater { limit },
            DecoratorKind::Timeout { micros } => DecoratorKindView::Timeout { micros },
            DecoratorKind::Cooldown { micros } => DecoratorKindView::Cooldown { micros },
            DecoratorKind::Retry { attempts } => DecoratorKindView::Retry { attempts },
            DecoratorKind::ForceSuccess => DecoratorKindView::ForceSuccess,
            DecoratorKind::ForceFailure => DecoratorKindView::ForceFailure,
            DecoratorKind::Succeeder => DecoratorKindView::Succeeder,
            DecoratorKind::UntilSuccess { limit } => DecoratorKindView::UntilSuccess { limit },
            DecoratorKind::UntilFailure { limit } => DecoratorKindView::UntilFailure { limit },
            DecoratorKind::Limiter { limit } => DecoratorKindView::Limiter { limit },
            DecoratorKind::Guard { condition, abort_policy, watch_keys } => DecoratorKindView::Guard {
                handler: condition.0@,
                abort_policy,
                watch_keys: watch_keys@,
            },
            DecoratorKind::Delay { micros } => DecoratorKindView::Delay { micros },
            DecoratorKind::RunOnce { completed_status } => DecoratorKindView::RunOnce {
                completed_status,
            },
            DecoratorKind::BlackboardCondition { key, condition, abort_policy } =>
                DecoratorKindView::BlackboardCondition { key, condition, abort_policy },
        }
    }
}

impl View for NodeKind {
    type V = NodeKindView;

    open spec fn view(&self) -> NodeKindView {
        match *self {
            NodeKind::Sequence(k) => NodeKindView::Sequence(k),
            NodeKind::Selector(k) => NodeKindView::Selector(k),
            NodeKind::Parallel(p) => NodeKindView::Parallel(p),
            NodeKind::Decorator(d) => NodeKindView::Decorator(d@),
            NodeKind::Action(key) => NodeKindView::Action(key.0@),
            NodeKind::Condition { key, watch_keys } => NodeKindView::Condition {
                key: key.0@,
                watch_keys: watch_keys@,
            },
        }
    }
}

impl NodeKindView {
    /// Leaves take no children.
    pub open spec fn is_leaf(self) -> bool {
        self is Action || self is Condition
    }

    /// Decorators take exactly one child.
    pub open spec fn is_decorator(self) -> bool {
        self is Decorator
    }
}

/// A periodic callback attached to a node.
#[derive(Debug)]
pub struct ServiceBinding {
    pub name: String,
    pub key: ServiceKey,
    pub interval_micros: i64,
    pub start_immediately: bool,
    pub wake_on_change: bool,
    pub watch_keys: Vec<BlackboardKeyId>,
}

pub struct ServiceBindingView {
    pub name: Seq<char>,
    pub key: Seq<char>,
    pub interval_micros: i64,
    pub start_immediately: bool,
    pub wake_on_change: bool,
    pub watch_keys: Seq<BlackboardKeyId>,
}

impl View for ServiceBinding {
    type V = ServiceBindingView;

    open spec fn view(&self) -> ServiceBindingView {
        ServiceBindingView {
            name: self.name@,
            key: self.key.0@,
            interval_micros: self.interval_micros,
            start_immediately: self.start_immediately,
            wake_on_change: self.wake_on_change,
            watch_keys: self.watch_keys@,
        }
    }
}

impl Clone for ServiceBinding {
    fn clone(&self) -> (r: Self)
        ensures
            r@ == self@,
    {
        ServiceBinding {
            name: self.name.clone(),
            key: self.key.clone(),
            interval_micros: self.interval_micros,
            start_immediately: self.start_immediately,
            wake_on_change: self.wake_on_change,
            watch_keys: keys_from_slice(self.watch_keys.as_slice()),
        }
    }
}

impl ServiceBinding {
    /// A binding that runs on branch entry and wakes the tree when it changes
    /// the blackboard; it watches no keys.
    pub fn new(name: &str, key: &str, interval_micros: i64) -> (r: Self)
        ensures
            r@ == (ServiceBindingView {
                name: name@,
                key: key@,
                interval_micros,
                start_immediately: true,
                wake_on_change: true,
                watch_keys: Seq::empty(),
            }),
    {
        ServiceBinding {
            name: name.to_owned(),
            key: ServiceKey(key.to_owned()),
            interval_micros,
            start_immediately: true,
            wake_on_change: true,
            watch_keys: Vec::new(),
        }
    }

    /// The same binding watching `keys` instead.
    pub fn with_watch_keys(self, keys: &[BlackboardKeyId]) -> (r: Self)
        ensures
            r@ == (ServiceBindingView { watch_keys: keys@, ..self@ }),
    {
        let mut s = self;
        s.watch_keys = keys_from_slice(keys);
        s
    }
}

/// A vector holding the keys of `keys`, in order.
pub fn keys_from_slice(keys: &[BlackboardKeyId]) -> (r: Vec<BlackboardKeyId>)
    ensures
        r@ == keys@,
{
    let mut v: Vec<BlackboardKeyId> = Vec::new();
    let mut i: usize = 0;
    while i < keys.len()
        invariant
            i <= keys@.len(),
            v@ == keys@.take(i as int),
        decreases keys@.len() - i,
    {
        v.push(keys[i]);
        assert(keys@.take(i + 1) == keys@.take(i as int).push(keys@[i as int]));
        i = i + 1;
    }
    assert(keys@.take(i as int) == keys@);
    v
}


/// A parallel threshold counts the children with an outcome: `AtLeast(n)` is
/// met by `n` or more of them whatever the number of children, `Any` by at
/// least one, `All` by every child. More such children never undo a met
/// threshold.
pub proof fn law_thresholds_count_outcomes(
    threshold: ParallelThreshold,
    n: u16,
    count: int,
    more: int,
    child_count: int,
    other_child_count: int,
)
    ensures
        threshold_reached(ParallelThreshold::AtLeast(n), count, child_count) <==> count >= n,
        threshold_reached(ParallelThreshold::AtLeast(n), count, child_count) == threshold_reached(
            ParallelThreshold::AtLeast(n),
            count,
            other_child_count,
        ),
        threshold_reached(ParallelThreshold::Any, count, child_count) <==> count >= 1,
        threshold_reached(ParallelThreshold::All, count, child_count) <==> count == child_count,
        count <= more <= child_count && threshold_reached(threshold, count, child_count) ==> threshold_reached(
            threshold,
            more,
            child_count,
        ),
{
}

} // verus!
