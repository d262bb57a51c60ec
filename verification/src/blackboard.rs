//! Typed, schema-driven blackboard storage.
use vstd::prelude::*;

use crate::float_bits::{float_eq, float_lt, FloatBits};
use crate::text::{decimal, decimal_string, joined, same_text};

verus! {

/// Dense index of a key in a blackboard schema.
#[derive(Clone, Copy, Debug, PartialEq, Eq, Structural, Hash, PartialOrd, Ord)]
pub struct BlackboardKeyId(pub u16);

#[derive(Clone, Copy, Debug, PartialEq, Eq, Structural, Hash)]
pub enum BlackboardValueType {
    Bool,
    Int,
    Float,
    Entity,
    Vec2,
    Vec3,
    Quat,
    Text,
}

#[derive(Clone, Copy, Debug, PartialEq, Eq, Structural, Hash)]
pub enum BlackboardKeyDirection {
    Input,
    Output,
    InOut,
    Local,
}

/// An entity handle carried as its 64-bit encoding (`Entity::to_bits`).
#[derive(Clone, Copy, Debug, PartialEq, Eq, Structural, Hash)]
pub struct EntityBits(pub u64);

/// A two-component vector whose components are `f32` bit patterns.
#[derive(Clone, Copy, Debug, PartialEq, Eq, Structural, Hash)]
pub struct Vec2Bits {
    pub x: FloatBits,
    pub y: FloatBits,
}

/// A three-component vector whose components are `f32` bit patterns.
#[derive(Clone, Copy, Debug, PartialEq, Eq, Structural, Hash)]
pub struct Vec3Bits {
    pub x: FloatBits,
    pub y: FloatBits,
    pub z: FloatBits,
}

/// A quaternion whose components are `f32` bit patterns.
#[derive(Clone, Copy, Debug, PartialEq, Eq, Structural, Hash)]
pub struct QuatBits {
    pub x: FloatBits,
    pub y: FloatBits,
    pub z: FloatBits,
    pub w: FloatBits,
}

#[derive(Debug)]
pub enum BlackboardValue {
    Bool(bool),
    Int(i32),
    Float(FloatBits),
    Entity(EntityBits),
    Vec2(Vec2Bits),
    Vec3(Vec3Bits),
    Quat(QuatBits),
    Text(String),
}

impl Clone for BlackboardValue {
    fn clone(&self) -> (r: Self)
        ensures
            r == *self,
    {
        match self {
            BlackboardValue::Bool(v) => BlackboardValue::Bool(*v),
            BlackboardValue::Int(v) => BlackboardValue::Int(*v),
            BlackboardValue::Float(v) => BlackboardValue::Float(*v),
            BlackboardValue::Entity(v) => BlackboardValue::Entity(*v),
            BlackboardValue::Vec2(v) => BlackboardValue::Vec2(*v),
            BlackboardValue::Vec3(v) => BlackboardValue::Vec3(*v),
            BlackboardValue::Quat(v) => BlackboardValue::Quat(*v),
            BlackboardValue::Text(v) => BlackboardValue::Text(v.clone()),
        }
    }
}

/// The type tag of a value.
pub open spec fn type_of(v: BlackboardValue) -> BlackboardValueType {
    match v {
        BlackboardValue::Bool(_) => BlackboardValueType::Bool,
        BlackboardValue::Int(_) => BlackboardValueType::Int,
        BlackboardValue::Float(_) => BlackboardValueType::Float,
        BlackboardValue::Entity(_) => BlackboardValueType::Entity,
        BlackboardValue::Vec2(_) => BlackboardValueType::Vec2,
        BlackboardValue::Vec3(_) => BlackboardValueType::Vec3,
        BlackboardValue::Quat(_) => BlackboardValueType::Quat,
        BlackboardValue::Text(_) => BlackboardValueType::Text,
    }
}

/// Value equality: same variant, floats compared as `f32` (so a NaN
/// component makes two values unequal), text compared by content.
pub open spec fn value_eq(a: BlackboardValue, b: BlackboardValue) -> bool {
    match (a, b) {
        (BlackboardValue::Bool(x), BlackboardValue::Bool(y)) => x == y,
        (BlackboardValue::Int(x), BlackboardValue::Int(y)) => x == y,
        (BlackboardValue::Float(x), BlackboardValue::Float(y)) => float_eq(x, y),
        (BlackboardValue::Entity(x), BlackboardValue::Entity(y)) => x == y,
        (BlackboardValue::Vec2(x), BlackboardValue::Vec2(y)) => float_eq(x.x, y.x) && float_eq(
            x.y,
            y.y,
        ),
        (BlackboardValue::Vec3(x), BlackboardValue::Vec3(y)) => float_eq(x.x, y.x) && float_eq(
            x.y,
            y.y,
        ) && float_eq(x.z, y.z),
        (BlackboardValue::Quat(x), BlackboardValue::Quat(y)) => float_eq(x.x, y.x) && float_eq(
            x.y,
            y.y,
        ) && float_eq(x.z, y.z) && float_eq(x.w, y.w),
        (BlackboardValue::Text(x), BlackboardValue::Text(y)) => x@ == y@,
        _ => false,
    }
}

/// Equality of optional values: both absent, or both present and equal.
pub open spec fn opt_value_eq(a: Option<BlackboardValue>, b: Option<BlackboardValue>) -> bool {
    match (a, b) {
        (None, None) => true,
        (Some(x), Some(y)) => value_eq(x, y),
        _ => false,
    }
}

fn text_eq(a: &String, b: &String) -> (r: bool)
    ensures
        r == (a@ == b@),
{
    *a == *b
}

impl BlackboardValue {
    pub fn value_type(&self) -> (t: BlackboardValueType)
        ensures
            t == type_of(*self),
    {
        match self {
            BlackboardValue::Bool(_) => BlackboardValueType::Bool,
            BlackboardValue::Int(_) => BlackboardValueType::Int,
            BlackboardValue::Float(_) => BlackboardValueType::Float,
            BlackboardValue::Entity(_) => BlackboardValueType::Entity,
            BlackboardValue::Vec2(_) => BlackboardValueType::Vec2,
            BlackboardValue::Vec3(_) => BlackboardValueType::Vec3,
            BlackboardValue::Quat(_) => BlackboardValueType::Quat,
            BlackboardValue::Text(_) => BlackboardValueType::Text,
        }
    }

    /// Value equality as `value_eq` states it.
    pub fn same_as(&self, other: &BlackboardValue) -> (r: bool)
        ensures
            r == value_eq(*self, *other),
    {
        match (self, other) {
            (BlackboardValue::Bool(x), BlackboardValue::Bool(y)) => *x == *y,
            (BlackboardValue::Int(x), BlackboardValue::Int(y)) => *x == *y,
            (BlackboardValue::Float(x), BlackboardValue::Float(y)) => x.float_eq(*y),
            (BlackboardValue::Entity(x), BlackboardValue::Entity(y)) => x.0 == y.0,
            (BlackboardValue::Vec2(x), BlackboardValue::Vec2(y)) => x.x.float_eq(y.x)
                && x.y.float_eq(y.y),
            (BlackboardValue::Vec3(x), BlackboardValue::Vec3(y)) => x.x.float_eq(y.x)
                && x.y.float_eq(y.y) && x.z.float_eq(y.z),
            (BlackboardValue::Quat(x), BlackboardValue::Quat(y)) => x.x.float_eq(y.x)
                && x.y.float_eq(y.y) && x.z.float_eq(y.z) && x.w.float_eq(y.w),
            (BlackboardValue::Text(x), BlackboardValue::Text(y)) => text_eq(x, y),
            _ => false,
        }
    }

    pub fn as_bool(&self) -> (r: Option<bool>)
        ensures
            r == (match *self {
                BlackboardValue::Bool(v) => Some(v),
                _ => None,
            }),
    {
        match self {
            BlackboardValue::Bool(value) => Some(*value),
            _ => None,
        }
    }

    pub fn as_int(&self) -> (r: Option<i32>)
        ensures
            r == (match *self {
                BlackboardValue::Int(v) => Some(v),
                _ => None,
            }),
    {
        match self {
            BlackboardValue::Int(value) => Some(*value),
            _ => None,
        }
    }

    pub fn as_float(&self) -> (r: Option<FloatBits>)
        ensures
            r == (match *self {
                BlackboardValue::Float(v) => Some(v),
                _ => None,
            }),
    {
        match self {
            BlackboardValue::Float(value) => Some(*value),
            _ => None,
        }
    }

    pub fn as_entity(&self) -> (r: Option<EntityBits>)
        ensures
            r == (match *self {
                BlackboardValue::Entity(v) => Some(v),
                _ => None,
            }),
    {
        match self {
            BlackboardValue::Entity(value) => Some(*value),
            _ => None,
        }
    }

    pub fn as_vec2(&self) -> (r: Option<Vec2Bits>)
        ensures
            r == (match *self {
                BlackboardValue::Vec2(v) => Some(v),
                _ => None,
            }),
    {
        match self {
            BlackboardValue::Vec2(value) => Some(*value),
            _ => None,
        }
    }

    pub fn as_vec3(&self) -> (r: Option<Vec3Bits>)
        ensures
            r == (match *self {
                BlackboardValue::Vec3(v) => Some(v),
                _ => None,
            }),
    {
        match self {
            BlackboardValue::Vec3(value) => Some(*value),
            _ => None,
        }
    }

    pub fn as_quat(&self) -> (r: Option<QuatBits>)
        ensures
            r == (match *self {
                BlackboardValue::Quat(v) => Some(v),
                _ => None,
            }),
    {
        match self {
            BlackboardValue::Quat(value) => Some(*value),
            _ => None,
        }
    }

    pub fn as_text(&self) -> (r: Option<&str>)
        ensures
            match *self {
                BlackboardValue::Text(v) => r is Some && r->0@ == v@,
                _ => r is None,
            },
    {
        match self {
            BlackboardValue::Text(value) => Some(value.as_str()),
            _ => None,
        }
    }
}

impl From<bool> for BlackboardValue {
    fn from(value: bool) -> (r: Self) {
        BlackboardValue::Bool(value)
    }
}

impl vstd::std_specs::convert::FromSpecImpl<bool> for BlackboardValue {
    open spec fn obeys_from_spec() -> bool {
        true
    }

    open spec fn from_spec(v: bool) -> Self {
        BlackboardValue::Bool(v)
    }
}

impl From<i32> for BlackboardValue {
    fn from(value: i32) -> (r: Self) {
        BlackboardValue::Int(value)
    }
}

impl vstd::std_specs::convert::FromSpecImpl<i32> for BlackboardValue {
    open spec fn obeys_from_spec() -> bool {
        true
    }

    open spec fn from_spec(v: i32) -> Self {
        BlackboardValue::Int(v)
    }
}

impl From<String> for BlackboardValue {
    fn from(value: String) -> (r: Self) {
        BlackboardValue::Text(value)
    }
}

impl vstd::std_specs::convert::FromSpecImpl<String> for BlackboardValue {
    open spec fn obeys_from_spec() -> bool {
        true
    }

    open spec fn from_spec(v: String) -> Self {
        BlackboardValue::Text(v)
    }
}


/// A predicate over an optional blackboard value.
#[derive(Debug)]
pub enum BlackboardCondition {
    Exists,
    Missing,
    IsTrue,
    IsFalse,
    Equals(BlackboardValue),
    NotEquals(BlackboardValue),
    FloatGreaterThan(FloatBits),
    FloatLessThan(FloatBits),
    IntGreaterThan(i32),
    IntLessThan(i32),
}

impl Clone for BlackboardCondition {
    fn clone(&self) -> (r: Self)
        ensures
            r == *self,
    {
        match self {
            BlackboardCondition::Exists => BlackboardCondition::Exists,
            BlackboardCondition::Missing => BlackboardCondition::Missing,
            BlackboardCondition::IsTrue => BlackboardCondition::IsTrue,
            BlackboardCondition::IsFalse => BlackboardCondition::IsFalse,
            BlackboardCondition::Equals(v) => BlackboardCondition::Equals(v.clone()),
            BlackboardCondition::NotEquals(v) => BlackboardCondition::NotEquals(v.clone()),
            BlackboardCondition::FloatGreaterThan(v) => BlackboardCondition::FloatGreaterThan(*v),
            BlackboardCondition::FloatLessThan(v) => BlackboardCondition::FloatLessThan(*v),
            BlackboardCondition::IntGreaterThan(v) => BlackboardCondition::IntGreaterThan(*v),
            BlackboardCondition::IntLessThan(v) => BlackboardCondition::IntLessThan(*v),
        }
    }
}

pub open spec fn deref_value(value: Option<&BlackboardValue>) -> Option<BlackboardValue> {
    match value {
        Some(v) => Some(*v),
        None => None,
    }
}

/// Whether `condition` holds of `value` (absent when `None`).
pub open spec fn condition_holds(condition: BlackboardCondition, value: Option<BlackboardValue>) -> bool {
    match condition {
        BlackboardCondition::Exists => value is Some,
        BlackboardCondition::Missing => value is None,
        BlackboardCondition::IsTrue => value == Some(BlackboardValue::Bool(true)),
        BlackboardCondition::IsFalse => value != Some(BlackboardValue::Bool(true)),
        BlackboardCondition::Equals(expected) => opt_value_eq(value, Some(expected)),
        BlackboardCondition::NotEquals(expected) => !opt_value_eq(value, Some(expected)),
        BlackboardCondition::FloatGreaterThan(bound) => match value {
            Some(BlackboardValue::Float(v)) => float_lt(bound, v),
            _ => false,
        },
        BlackboardCondition::FloatLessThan(bound) => match value {
            Some(BlackboardValue::Float(v)) => float_lt(v, bound),
            _ => false,
        },
        BlackboardCondition::IntGreaterThan(bound) => match value {
            Some(BlackboardValue::Int(v)) => v > bound,
            _ => false,
        },
        BlackboardCondition::IntLessThan(bound) => match value {
            Some(BlackboardValue::Int(v)) => v < bound,
            _ => false,
        },
    }
}

impl BlackboardCondition {
    pub fn evaluate(&self, value: Option<&BlackboardValue>) -> (r: bool)
        ensures
            r == condition_holds(*self, deref_value(value)),
    {
        match self {
            BlackboardCondition::Exists => value.is_some(),
            BlackboardCondition::Missing => value.is_none(),
            BlackboardCondition::IsTrue => match value {
                Some(BlackboardValue::Bool(b)) => *b,
                _ => false,
            },
            BlackboardCondition::IsFalse => match value {
                Some(BlackboardValue::Bool(b)) => !*b,
                _ => true,
            },
            BlackboardCondition::Equals(expected) => match value {
                Some(v) => v.same_as(expected),
                None => false,
            },
            BlackboardCondition::NotEquals(expected) => match value {
                Some(v) => !v.same_as(expected),
                None => true,
            },
            BlackboardCondition::FloatGreaterThan(bound) => match value {
                Some(BlackboardValue::Float(v)) => bound.float_lt(*v),
                _ => false,
            },
            BlackboardCondition::FloatLessThan(bound) => match value {
                Some(BlackboardValue::Float(v)) => v.float_lt(*bound),
                _ => false,
            },
            BlackboardCondition::IntGreaterThan(bound) => match value {
                Some(BlackboardValue::Int(v)) => *v > *bound,
                _ => false,
            },
            BlackboardCondition::IntLessThan(bound) => match value {
                Some(BlackboardValue::Int(v)) => *v < *bound,
                _ => false,
            },
        }
    }
}

#[derive(Debug)]
pub struct BlackboardKeyDefinition {
    pub id: BlackboardKeyId,
    pub name: String,
    pub value_type: BlackboardValueType,
    pub direction: BlackboardKeyDirection,
    pub required: bool,
    pub default_value: Option<BlackboardValue>,
    pub description: String,
}

pub(crate) fn clone_opt_value(v: &Option<BlackboardValue>) -> (r: Option<BlackboardValue>)
    ensures
        r == *v,
{
    match v {
        Some(x) => Some(x.clone()),
        None => None,
    }
}

impl Clone for BlackboardKeyDefinition {
    fn clone(&self) -> (r: Self)
        ensures
            r == *self,
    {
        BlackboardKeyDefinition {
            id: self.id,
            name: self.name.clone(),
            value_type: self.value_type,
            direction: self.direction,
            required: self.required,
            default_value: clone_opt_value(&self.default_value),
            description: self.description.clone(),
        }
    }
}

/// The content of a key definition, with names as character sequences.
pub struct BlackboardKeyView {
    pub id: BlackboardKeyId,
    pub name: Seq<char>,
    pub value_type: BlackboardValueType,
    pub direction: BlackboardKeyDirection,
    pub required: bool,
    pub default_value: Option<BlackboardValue>,
    pub description: Seq<char>,
}

impl View for BlackboardKeyDefinition {
    type V = BlackboardKeyView;

    open spec fn view(&self) -> BlackboardKeyView {
        BlackboardKeyView {
            id: self.id,
            name: self.name@,
            value_type: self.value_type,
            direction: self.direction,
            required: self.required,
            default_value: self.default_value,
            description: self.description@,
        }
    }
}

/// Field-by-field equality of key definitions, comparing default values as
/// `value_eq` does.
pub open spec fn key_definition_eq(a: BlackboardKeyDefinition, b: BlackboardKeyDefinition) -> bool {
    &&& a.id == b.id
    &&& a.name@ == b.name@
    &&& a.value_type == b.value_type
    &&& a.direction == b.direction
    &&& a.required == b.required
    &&& opt_value_eq(a.default_value, b.default_value)
    &&& a.description@ == b.description@
}

#[derive(Debug)]
pub struct BlackboardSchema {
    pub keys: Vec<BlackboardKeyDefinition>,
}

impl Clone for BlackboardSchema {
    fn clone(&self) -> (r: Self)
        ensures
            r.keys@ == self.keys@,
    {
        let keys = self.keys.clone();
        assert(keys@ =~= self.keys@);
        BlackboardSchema { keys }
    }
}

impl Default for BlackboardSchema {
    fn default() -> (r: Self)
        ensures
            r.keys@ == Seq::<BlackboardKeyDefinition>::empty(),
    {
        BlackboardSchema { keys: Vec::new() }
    }
}

/// Schemas are equal when they have the same number of keys and the keys are
/// pairwise equal.
pub open spec fn schema_eq(a: BlackboardSchema, b: BlackboardSchema) -> bool {
    &&& a.keys@.len() == b.keys@.len()
    &&& forall|i: int| 0 <= i < a.keys@.len() ==> key_definition_eq(#[trigger] a.keys@[i], b.keys@[i])
}

/// `i` is the first position whose key carries `name`.
pub open spec fn first_named(keys: Seq<BlackboardKeyDefinition>, name: Seq<char>, i: int) -> bool {
    &&& 0 <= i < keys.len()
    &&& keys[i].name@ == name
    &&& forall|j: int| 0 <= j < i ==> keys[j].name@ != name
}

/// The id of the first key named `name`, if any.
pub open spec fn find_key_spec(keys: Seq<BlackboardKeyDefinition>, name: Seq<char>) -> Option<BlackboardKeyId> {
    if exists|i: int| first_named(keys, name, i) {
        Some(keys[choose|i: int| first_named(keys, name, i)].id)
    } else {
        None
    }
}

pub proof fn lemma_first_named_unique(keys: Seq<BlackboardKeyDefinition>, name: Seq<char>, i: int, j: int)
    requires
        first_named(keys, name, i),
        first_named(keys, name, j),
    ensures
        i == j,
{
    if i < j {
        assert(keys[i].name@ != name);
    } else if j < i {
        assert(keys[j].name@ != name);
    }
}

impl BlackboardSchema {
    pub fn key(&self, key: BlackboardKeyId) -> (r: Option<&BlackboardKeyDefinition>)
        ensures
            (key.0 < self.keys@.len()) == (r is Some),
            r is Some ==> *r->0 == self.keys@[key.0 as int],
    {
        let index = key.0 as usize;
        if index < self.keys.len() {
            Some(&self.keys[index])
        } else {
            None
        }
    }

    pub fn find_key(&self, name: &str) -> (r: Option<BlackboardKeyId>)
        ensures
            r == find_key_spec(self.keys@, name@),
    {
        let mut i: usize = 0;
        while i < self.keys.len()
            invariant
                i <= self.keys@.len(),
                forall|j: int| 0 <= j < i ==> self.keys@[j].name@ != name@,
            decreases self.keys@.len() - i,
        {
            if same_text(self.keys[i].name.as_str(), name) {
                assert(first_named(self.keys@, name@, i as int));
                proof {
                    let c = choose|c: int| first_named(self.keys@, name@, c);
                    lemma_first_named_unique(self.keys@, name@, i as int, c);
                }
                return Some(self.keys[i].id);
            }
            i = i + 1;
        }
        assert(!exists|c: int| first_named(self.keys@, name@, c));
        None
    }

    /// Pairwise key equality, as `schema_eq` states it.
    pub fn same_as(&self, other: &BlackboardSchema) -> (r: bool)
        ensures
            r == schema_eq(*self, *other),
    {
        if self.keys.len() != other.keys.len() {
            return false;
        }
        let mut i: usize = 0;
        while i < self.keys.len()
            invariant
                i <= self.keys@.len(),
                self.keys@.len() == other.keys@.len(),
                forall|j: int| 0 <= j < i ==> key_definition_eq(#[trigger] self.keys@[j], other.keys@[j]),
            decreases self.keys@.len() - i,
        {
            let a = &self.keys[i];
            let b = &other.keys[i];
            let defaults_equal = match (&a.default_value, &b.default_value) {
                (None, None) => true,
                (Some(x), Some(y)) => x.same_as(y),
                _ => false,
            };
            if !(a.id == b.id && same_text(a.name.as_str(), b.name.as_str())
                && a.value_type == b.value_type && a.direction == b.direction
                && a.required == b.required && defaults_equal && same_text(
                a.description.as_str(),
                b.description.as_str(),
            )) {
                assert(!key_definition_eq(self.keys@[i as int], other.keys@[i as int]));
                return false;
            }
            i = i + 1;
        }
        true
    }
}


/// One recorded write or clear of a key.
#[derive(Debug)]
pub struct BlackboardChange {
    pub key: BlackboardKeyId,
    pub name: String,
    pub revision: u64,
    pub old_value: Option<BlackboardValue>,
    pub new_value: Option<BlackboardValue>,
}

/// The blackboard of one controlled entity: a value slot and a revision per
/// schema key, a total revision counter, and the keys and changes recorded
/// since they were last taken.
#[derive(Debug)]
pub struct BehaviorTreeBlackboard {
    pub schema: BlackboardSchema,
    pub values: Vec<Option<BlackboardValue>>,
    pub revisions: Vec<u64>,
    pub total_revision: u64,
    pub dirty_keys: Vec<BlackboardKeyId>,
    pub recent_changes: Vec<BlackboardChange>,
}

/// The mathematical content of a blackboard.
pub struct BlackboardView {
    pub keys: Seq<BlackboardKeyDefinition>,
    pub values: Seq<Option<BlackboardValue>>,
    pub revisions: Seq<u64>,
    pub total_revision: u64,
    pub dirty_keys: Seq<BlackboardKeyId>,
    pub recent_changes: Seq<BlackboardChange>,
}

impl View for BehaviorTreeBlackboard {
    type V = BlackboardView;

    open spec fn view(&self) -> BlackboardView {
        BlackboardView {
            keys: self.schema.keys@,
            values: self.values@,
            revisions: self.revisions@,
            total_revision: self.total_revision,
            dirty_keys: self.dirty_keys@,
            recent_changes: self.recent_changes@,
        }
    }
}

impl BlackboardView {
    /// Every schema key has a value slot and a revision.
    pub open spec fn wf(self) -> bool {
        &&& self.values.len() == self.keys.len()
        &&& self.revisions.len() == self.keys.len()
    }

    /// The stored value of `key`, absent when the key has no slot.
    pub open spec fn value_of(self, key: BlackboardKeyId) -> Option<BlackboardValue> {
        if key.0 < self.values.len() {
            self.values[key.0 as int]
        } else {
            None
        }
    }

    /// A key that the schema declares has a value slot and a revision.
    pub open spec fn slots_cover(self, key: BlackboardKeyId) -> bool {
        key.0 < self.keys.len() ==> (key.0 < self.values.len() && key.0 < self.revisions.len())
    }
}

/// The blackboard after `key` is given `new_value` and the write is recorded.
pub open spec fn recorded_write(
    v: BlackboardView,
    key: BlackboardKeyId,
    new_value: Option<BlackboardValue>,
) -> BlackboardView {
    let k = key.0 as int;
    let revision = (v.total_revision + 1) as u64;
    BlackboardView {
        keys: v.keys,
        values: v.values.update(k, new_value),
        revisions: v.revisions.update(k, revision),
        total_revision: revision,
        dirty_keys: if v.dirty_keys.contains(key) {
            v.dirty_keys
        } else {
            v.dirty_keys.push(key)
        },
        recent_changes: v.recent_changes.push(
            BlackboardChange {
                key,
                name: v.keys[k].name,
                revision,
                old_value: v.values[k],
                new_value,
            },
        ),
    }
}

pub open spec fn type_label(t: BlackboardValueType) -> Seq<char> {
    match t {
        BlackboardValueType::Bool => "Bool"@,
        BlackboardValueType::Int => "Int"@,
        BlackboardValueType::Float => "Float"@,
        BlackboardValueType::Entity => "Entity"@,
        BlackboardValueType::Vec2 => "Vec2"@,
        BlackboardValueType::Vec3 => "Vec3"@,
        BlackboardValueType::Quat => "Quat"@,
        BlackboardValueType::Text => "Text"@,
    }
}

/// The error text for a key that the schema does not declare.
pub open spec fn unknown_key_message(key: BlackboardKeyId) -> Seq<char> {
    "unknown blackboard key BlackboardKeyId("@ + decimal(key.0 as nat) + ")"@
}

/// The error text for a write whose value has the wrong type.
pub open spec fn type_mismatch_message(
    name: Seq<char>,
    expected: BlackboardValueType,
    found: BlackboardValueType,
) -> Seq<char> {
    "blackboard key '"@ + name + "' expects "@ + type_label(expected) + ", got "@ + type_label(found)
}

/// What `set` returns on a blackboard with content `v`.
pub open spec fn set_outcome(v: BlackboardView, key: BlackboardKeyId, value: BlackboardValue) -> Result<bool, Seq<char>> {
    if key.0 >= v.keys.len() {
        Err(unknown_key_message(key))
    } else if v.keys[key.0 as int].value_type != type_of(value) {
        Err(type_mismatch_message(v.keys[key.0 as int].name@, v.keys[key.0 as int].value_type, type_of(value)))
    } else if key.0 < v.values.len() && opt_value_eq(v.values[key.0 as int], Some(value)) {
        Ok(false)
    } else {
        Ok(true)
    }
}

/// The content after `set`: changed only when `set_outcome` is `Ok(true)`.
pub open spec fn set_result(v: BlackboardView, key: BlackboardKeyId, value: BlackboardValue) -> BlackboardView {
    if set_outcome(v, key, value) == Ok::<bool, Seq<char>>(true) {
        recorded_write(v, key, Some(value))
    } else {
        v
    }
}

/// What `clear` returns on a blackboard with content `v`.
pub open spec fn clear_outcome(v: BlackboardView, key: BlackboardKeyId) -> Result<bool, Seq<char>> {
    if key.0 >= v.keys.len() {
        Err(unknown_key_message(key))
    } else if v.values[key.0 as int] is None {
        Ok(false)
    } else {
        Ok(true)
    }
}

/// The content after `clear`.
pub open spec fn clear_result(v: BlackboardView, key: BlackboardKeyId) -> BlackboardView {
    if clear_outcome(v, key) == Ok::<bool, Seq<char>>(true) {
        recorded_write(v, key, None)
    } else {
        v
    }
}

pub open spec fn outcome_view(r: Result<bool, String>) -> Result<bool, Seq<char>> {
    match r {
        Ok(b) => Ok(b),
        Err(e) => Err(e@),
    }
}

fn type_label_of(t: BlackboardValueType) -> (r: &'static str)
    ensures
        r@ == type_label(t),
{
    match t {
        BlackboardValueType::Bool => "Bool",
        BlackboardValueType::Int => "Int",
        BlackboardValueType::Float => "Float",
        BlackboardValueType::Entity => "Entity",
        BlackboardValueType::Vec2 => "Vec2",
        BlackboardValueType::Vec3 => "Vec3",
        BlackboardValueType::Quat => "Quat",
        BlackboardValueType::Text => "Text",
    }
}

fn unknown_key_error(key: BlackboardKeyId) -> (r: String)
    ensures
        r@ == unknown_key_message(key),
{
    let digits = decimal_string(key.0 as u64);
    let mut s = String::from_str("unknown blackboard key BlackboardKeyId(");
    s.append(digits.as_str());
    s.append(")");
    s
}

fn type_mismatch_error(name: &String, expected: BlackboardValueType, found: BlackboardValueType) -> (r: String)
    ensures
        r@ == type_mismatch_message(name@, expected, found),
{
    let mut s = String::from_str("blackboard key '");
    s.append(name.as_str());
    s.append("' expects ");
    s.append(type_label_of(expected));
    s.append(", got ");
    s.append(type_label_of(found));
    s
}

fn contains_key(keys: &Vec<BlackboardKeyId>, key: BlackboardKeyId) -> (r: bool)
    ensures
        r == keys@.contains(key),
{
    let mut i: usize = 0;
    while i < keys.len()
        invariant
            i <= keys@.len(),
            forall|j: int| 0 <= j < i ==> keys@[j] != key,
        decreases keys@.len() - i,
    {
        if keys[i] == key {
            assert(keys@[i as int] == key);
            return true;
        }
        i = i + 1;
    }
    false
}

impl Default for BehaviorTreeBlackboard {
    /// A blackboard with no keys.
    fn default() -> (r: Self)
        ensures
            r@ == (BlackboardView {
                keys: Seq::empty(),
                values: Seq::empty(),
                revisions: Seq::empty(),
                total_revision: 0,
                dirty_keys: Seq::empty(),
                recent_changes: Seq::empty(),
            }),
    {
        BehaviorTreeBlackboard {
            schema: BlackboardSchema { keys: Vec::new() },
            values: Vec::new(),
            revisions: Vec::new(),
            total_revision: 0,
            dirty_keys: Vec::new(),
            recent_changes: Vec::new(),
        }
    }
}

impl BehaviorTreeBlackboard {
    /// A blackboard holding the schema's default values, all revisions zero.
    pub fn from_schema(schema: &BlackboardSchema) -> (r: Self)
        ensures
            r@.keys == schema.keys@,
            r@.values == schema.keys@.map_values(|k: BlackboardKeyDefinition| k.default_value),
            r@.revisions == Seq::new(schema.keys@.len(), |i: int| 0u64),
            r@.total_revision == 0,
            r@.dirty_keys == Seq::<BlackboardKeyId>::empty(),
            r@.recent_changes == Seq::<BlackboardChange>::empty(),
            r@.wf(),
    {
        let mut values: Vec<Option<BlackboardValue>> = Vec::new();
        let mut revisions: Vec<u64> = Vec::new();
        let mut i: usize = 0;
        while i < schema.keys.len()
            invariant
                i <= schema.keys@.len(),
                values@ == schema.keys@.take(i as int).map_values(
                    |k: BlackboardKeyDefinition| k.default_value,
                ),
                revisions@ == Seq::new(i as nat, |j: int| 0u64),
            decreases schema.keys@.len() - i,
        {
            values.push(clone_opt_value(&schema.keys[i].default_value));
            revisions.push(0);
            assert(schema.keys@.take(i + 1) == schema.keys@.take(i as int).push(schema.keys@[i as int]));
            i = i + 1;
        }
        assert(schema.keys@.take(i as int) == schema.keys@);
        BehaviorTreeBlackboard {
            schema: schema.clone(),
            values,
            revisions,
            total_revision: 0,
            dirty_keys: Vec::new(),
            recent_changes: Vec::new(),
        }
    }

    /// The stored value of `key`.
    pub fn value(&self, key: BlackboardKeyId) -> (r: Option<&BlackboardValue>)
        ensures
            deref_value(r) == self@.value_of(key),
    {
        let index = key.0 as usize;
        if index < self.values.len() {
            match &self.values[index] {
                Some(v) => Some(v),
                None => None,
            }
        } else {
            None
        }
    }

    /// Writes `value` under `key`. Unknown keys and values of the wrong type
    /// are refused; writing a value equal to the stored one changes nothing
    /// and returns `Ok(false)`; any other write bumps the revisions and
    /// records the key as dirty and the change as recent.
    pub fn set(&mut self, key: BlackboardKeyId, value: BlackboardValue) -> (r: Result<bool, String>)
        requires
            old(self)@.slots_cover(key),
            set_outcome(old(self)@, key, value) == Ok::<bool, Seq<char>>(true) ==> old(self).total_revision
                < u64::MAX,
        ensures
            outcome_view(r) == set_outcome(old(self)@, key, value),
            final(self)@ == set_result(old(self)@, key, value),
    {
        let definition = match self.schema.key(key) {
            Some(definition) => definition,
            None => {
                return Err(unknown_key_error(key));
            },
        };
        if definition.value_type != value.value_type() {
            return Err(type_mismatch_error(&definition.name, definition.value_type, value.value_type()));
        }
        let name = definition.name.clone();
        let index = key.0 as usize;
        let unchanged = match &self.values[index] {
            Some(current) => current.same_as(&value),
            None => false,
        };
        if unchanged {
            return Ok(false);
        }
        self.record_write(key, name, Some(value));
        Ok(true)
    }

    /// Empties the slot of `key`. Unknown keys are refused; clearing an
    /// empty slot changes nothing and returns `Ok(false)`.
    pub fn clear(&mut self, key: BlackboardKeyId) -> (r: Result<bool, String>)
        requires
            old(self)@.slots_cover(key),
            clear_outcome(old(self)@, key) == Ok::<bool, Seq<char>>(true) ==> old(self).total_revision < u64::MAX,
        ensures
            outcome_view(r) == clear_outcome(old(self)@, key),
            final(self)@ == clear_result(old(self)@, key),
    {
        let definition = match self.schema.key(key) {
            Some(definition) => definition,
            None => {
                return Err(unknown_key_error(key));
            },
        };
        let name = definition.name.clone();
        let index = key.0 as usize;
        if self.values[index].is_none() {
            return Ok(false);
        }
        self.record_write(key, name, None);
        Ok(true)
    }

    fn record_write(&mut self, key: BlackboardKeyId, name: String, new_value: Option<BlackboardValue>)
        requires
            key.0 < old(self).schema.keys@.len(),
            key.0 < old(self).values@.len(),
            key.0 < old(self).revisions@.len(),
            old(self).total_revision < u64::MAX,
            name == old(self).schema.keys@[key.0 as int].name,
        ensures
            final(self)@ == recorded_write(old(self)@, key, new_value),
    {
        let index = key.0 as usize;
        let old_value = clone_opt_value(&self.values[index]);
        let stored = clone_opt_value(&new_value);
        self.values.set(index, stored);
        self.total_revision = self.total_revision + 1;
        self.revisions.set(index, self.total_revision);
        if !contains_key(&self.dirty_keys, key) {
            self.dirty_keys.push(key);
        }
        self.recent_changes.push(
            BlackboardChange {
                key,
                name,
                revision: self.total_revision,
                old_value,
                new_value,
            },
        );
    }

    /// Hands out the dirty keys and leaves none behind.
    pub fn take_dirty_keys(&mut self) -> (r: Vec<BlackboardKeyId>)
        ensures
            r@ == old(self)@.dirty_keys,
            final(self)@ == (BlackboardView { dirty_keys: Seq::empty(), ..old(self)@ }),
    {
        let mut taken = Vec::new();
        std::mem::swap(&mut taken, &mut self.dirty_keys);
        taken
    }

    /// Hands out the recent changes and leaves none behind.
    pub fn take_recent_changes(&mut self) -> (r: Vec<BlackboardChange>)
        ensures
            r@ == old(self)@.recent_changes,
            final(self)@ == (BlackboardView { recent_changes: Seq::empty(), ..old(self)@ }),
    {
        let mut taken = Vec::new();
        std::mem::swap(&mut taken, &mut self.recent_changes);
        taken
    }

    pub fn get_bool(&self, key: BlackboardKeyId) -> (r: Option<bool>)
        ensures
            r == (match self@.value_of(key) {
                Some(BlackboardValue::Bool(v)) => Some(v),
                _ => None,
            }),
    {
        match self.value(key) {
            Some(v) => v.as_bool(),
            None => None,
        }
    }

    pub fn get_int(&self, key: BlackboardKeyId) -> (r: Option<i32>)
        ensures
            r == (match self@.value_of(key) {
                Some(BlackboardValue::Int(v)) => Some(v),
                _ => None,
            }),
    {
        match self.value(key) {
            Some(v) => v.as_int(),
            None => None,
        }
    }

    pub fn get_float(&self, key: BlackboardKeyId) -> (r: Option<FloatBits>)
        ensures
            r == (match self@.value_of(key) {
                Some(BlackboardValue::Float(v)) => Some(v),
                _ => None,
            }),
    {
        match self.value(key) {
            Some(v) => v.as_float(),
            None => None,
        }
    }

    pub fn get_entity(&self, key: BlackboardKeyId) -> (r: Option<EntityBits>)
        ensures
            r == (match self@.value_of(key) {
                Some(BlackboardValue::Entity(v)) => Some(v),
                _ => None,
            }),
    {
        match self.value(key) {
            Some(v) => v.as_entity(),
            None => None,
        }
    }

    pub fn get_vec2(&self, key: BlackboardKeyId) -> (r: Option<Vec2Bits>)
        ensures
            r == (match self@.value_of(key) {
                Some(BlackboardValue::Vec2(v)) => Some(v),
                _ => None,
            }),
    {
        match self.value(key) {
            Some(v) => v.as_vec2(),
            None => None,
        }
    }

    pub fn get_vec3(&self, key: BlackboardKeyId) -> (r: Option<Vec3Bits>)
        ensures
            r == (match self@.value_of(key) {
                Some(BlackboardValue::Vec3(v)) => Some(v),
                _ => None,
            }),
    {
        match self.value(key) {
            Some(v) => v.as_vec3(),
            None => None,
        }
    }

    pub fn get_quat(&self, key: BlackboardKeyId) -> (r: Option<QuatBits>)
        ensures
            r == (match self@.value_of(key) {
                Some(BlackboardValue::Quat(v)) => Some(v),
                _ => None,
            }),
    {
        match self.value(key) {
            Some(v) => v.as_quat(),
            None => None,
        }
    }

    pub fn get_text(&self, key: BlackboardKeyId) -> (r: Option<&str>)
        ensures
            match self@.value_of(key) {
                Some(BlackboardValue::Text(v)) => r is Some && r->0@ == v@,
                _ => r is None,
            },
    {
        match self.value(key) {
            Some(v) => v.as_text(),
            None => None,
        }
    }
}


/// The value that `key` takes over from a previous blackboard: the stored
/// value of the first previous key with the same name, when its type matches.
pub open spec fn carried_value(previous: BlackboardView, key: BlackboardKeyDefinition) -> Option<BlackboardValue> {
    match find_key_spec(previous.keys, key.name@) {
        Some(prev) => match previous.value_of(prev) {
            Some(v) => if type_of(v) == key.value_type {
                Some(v)
            } else {
                None
            },
            None => None,
        },
        None => None,
    }
}

/// The value slots after re-fitting to `keys`: the defaults, then, key by
/// key in schema order, each carried-over value written at that key's id.
pub open spec fn resized_values(
    previous: BlackboardView,
    keys: Seq<BlackboardKeyDefinition>,
    preserve: bool,
    n: nat,
) -> Seq<Option<BlackboardValue>>
    decreases n,
{
    if n == 0 {
        keys.map_values(|k: BlackboardKeyDefinition| k.default_value)
    } else {
        let prev = resized_values(previous, keys, preserve, (n - 1) as nat);
        let k = keys[n - 1];
        if preserve && carried_value(previous, k) is Some {
            prev.update(k.id.0 as int, carried_value(previous, k))
        } else {
            prev
        }
    }
}

/// Every key whose value would be carried over has an id inside the schema.
pub open spec fn carried_ids_in_range(
    previous: BlackboardView,
    keys: Seq<BlackboardKeyDefinition>,
    preserve: bool,
) -> bool {
    forall|i: int|
        0 <= i < keys.len() && preserve && (#[trigger] carried_value(previous, keys[i])) is Some
            ==> keys[i].id.0 < keys.len()
}

/// Key ids are the positions of the keys.
pub open spec fn dense_ids(keys: Seq<BlackboardKeyDefinition>) -> bool {
    forall|i: int| 0 <= i < keys.len() ==> (#[trigger] keys[i]).id.0 == i
}

proof fn lemma_resized_len(
    previous: BlackboardView,
    keys: Seq<BlackboardKeyDefinition>,
    preserve: bool,
    n: nat,
)
    requires
        n <= keys.len(),
        carried_ids_in_range(previous, keys, preserve) || dense_ids(keys),
    ensures
        resized_values(previous, keys, preserve, n).len() == keys.len(),
    decreases n,
{
    if n > 0 {
        assert(keys[n - 1] == keys[n - 1]);
        lemma_resized_len(previous, keys, preserve, (n - 1) as nat);
    }
}

proof fn lemma_resized_dense(
    previous: BlackboardView,
    keys: Seq<BlackboardKeyDefinition>,
    preserve: bool,
    n: nat,
    i: int,
)
    requires
        dense_ids(keys),
        n <= keys.len(),
        0 <= i < keys.len(),
    ensures
        resized_values(previous, keys, preserve, n)[i] == (if i < n && preserve && carried_value(
            previous,
            keys[i],
        ) is Some {
            carried_value(previous, keys[i])
        } else {
            keys[i].default_value
        }),
    decreases n,
{
    lemma_resized_len(previous, keys, preserve, n);
    if n > 0 {
        lemma_resized_dense(previous, keys, preserve, (n - 1) as nat, i);
        lemma_resized_len(previous, keys, preserve, (n - 1) as nat);
        assert(keys[n - 1].id.0 == n - 1);
    }
}

/// When a blackboard is re-fitted to a schema whose key ids are their
/// positions, each key keeps the value that the previous blackboard stored
/// under the same name with the same type, and otherwise starts from its
/// default.
pub proof fn law_resize_keeps_values_by_name(
    previous: BlackboardView,
    keys: Seq<BlackboardKeyDefinition>,
    i: int,
)
    requires
        dense_ids(keys),
        0 <= i < keys.len(),
    ensures
        resized_values(previous, keys, true, keys.len())[i] == (match carried_value(previous, keys[i]) {
            Some(v) => Some(v),
            None => keys[i].default_value,
        }),
        resized_values(previous, keys, false, keys.len())[i] == keys[i].default_value,
{
    lemma_resized_dense(previous, keys, true, keys.len(), i);
    lemma_resized_dense(previous, keys, false, keys.len(), i);
}

impl BehaviorTreeBlackboard {
    /// Re-fits the blackboard to `schema`: a fresh blackboard of that schema
    /// which, when `preserve_values`, takes over previous values by name and
    /// type.
    pub fn resize_to_schema(&mut self, schema: &BlackboardSchema, preserve_values: bool)
        requires
            carried_ids_in_range(old(self)@, schema.keys@, preserve_values),
        ensures
            final(self)@ == (BlackboardView {
                keys: schema.keys@,
                values: resized_values(old(self)@, schema.keys@, preserve_values, schema.keys@.len()),
                revisions: Seq::new(schema.keys@.len(), |i: int| 0u64),
                total_revision: 0,
                dirty_keys: Seq::empty(),
                recent_changes: Seq::empty(),
            }),
    {
        let mut next = Self::from_schema(schema);
        let ghost previous = self@;
        proof {
            assert(next.values@ == resized_values(previous, schema.keys@, preserve_values, 0));
        }
        if preserve_values {
            let mut i: usize = 0;
            while i < schema.keys.len()
                invariant
                    i <= schema.keys@.len(),
                    self@ == previous,
                    preserve_values,
                    carried_ids_in_range(previous, schema.keys@, preserve_values),
                    next@.keys == schema.keys@,
                    next@.revisions == Seq::new(schema.keys@.len(), |i: int| 0u64),
                    next@.total_revision == 0,
                    next@.dirty_keys == Seq::<BlackboardKeyId>::empty(),
                    next@.recent_changes == Seq::<BlackboardChange>::empty(),
                    next.values@ == resized_values(previous, schema.keys@, preserve_values, i as nat),
                decreases schema.keys@.len() - i,
            {
                let key = &schema.keys[i];
                proof {
                    lemma_resized_len(previous, schema.keys@, preserve_values, i as nat);
                }
                let carried = self.carried_from(key);
                if let Some(value) = carried {
                    assert(schema.keys@[i as int] == *key);
                    next.values.set(key.id.0 as usize, Some(value));
                }
                i = i + 1;
            }
        } else {
            proof {
                lemma_resized_false(previous, schema.keys@, schema.keys@.len());
            }
        }
        *self = next;
    }

    fn carried_from(&self, key: &BlackboardKeyDefinition) -> (r: Option<BlackboardValue>)
        ensures
            r == carried_value(self@, *key),
    {
        match self.schema.find_key(key.name.as_str()) {
            Some(prev) => match self.value(prev) {
                Some(v) => if v.value_type() == key.value_type {
                    Some(v.clone())
                } else {
                    None
                },
                None => None,
            },
            None => None,
        }
    }
}

proof fn lemma_resized_false(previous: BlackboardView, keys: Seq<BlackboardKeyDefinition>, n: nat)
    ensures
        resized_values(previous, keys, false, n) == keys.map_values(
            |k: BlackboardKeyDefinition| k.default_value,
        ),
    decreases n,
{
    if n > 0 {
        lemma_resized_false(previous, keys, (n - 1) as nat);
    }
}


/// A write that `set` accepts is visible to the next read: a changing write
/// stores exactly the written value, and a write reported as unchanged found
/// an equal value already stored and left the blackboard as it was.
pub proof fn law_read_after_write(v: BlackboardView, key: BlackboardKeyId, value: BlackboardValue)
    requires
        v.slots_cover(key),
    ensures
        set_outcome(v, key, value) == Ok::<bool, Seq<char>>(true) ==> set_result(v, key, value).value_of(key)
            == Some(value),
        set_outcome(v, key, value) == Ok::<bool, Seq<char>>(false) ==> set_result(v, key, value) == v
            && opt_value_eq(v.value_of(key), Some(value)),
{
}

/// A write leaves every other key's value as it was, and a refused write
/// changes nothing at all.
pub proof fn law_write_frames_other_keys(
    v: BlackboardView,
    key: BlackboardKeyId,
    value: BlackboardValue,
    other: BlackboardKeyId,
)
    requires
        v.slots_cover(key),
        other != key,
    ensures
        set_result(v, key, value).value_of(other) == v.value_of(other),
        clear_result(v, key).value_of(other) == v.value_of(other),
        set_outcome(v, key, value) is Err ==> set_result(v, key, value) == v,
        clear_outcome(v, key) is Err ==> clear_result(v, key) == v,
{
}

/// A value of the wrong type, or an undeclared key, is refused.
pub proof fn law_type_mismatch_is_refused(v: BlackboardView, key: BlackboardKeyId, value: BlackboardValue)
    requires
        key.0 >= v.keys.len() || v.keys[key.0 as int].value_type != type_of(value),
    ensures
        set_outcome(v, key, value) is Err,
        set_result(v, key, value) == v,
{
}

/// Every change bumps the total revision by one, stamps the key's revision
/// with it, marks the key dirty exactly once, and records old and new value.
pub proof fn law_change_is_recorded(v: BlackboardView, key: BlackboardKeyId, value: BlackboardValue)
    requires
        v.slots_cover(key),
        set_outcome(v, key, value) == Ok::<bool, Seq<char>>(true),
        v.total_revision < u64::MAX,
    ensures
        ({
            let w = set_result(v, key, value);
            &&& w.total_revision == v.total_revision + 1
            &&& w.revisions[key.0 as int] == w.total_revision
            &&& w.dirty_keys.contains(key)
            &&& (v.dirty_keys.contains(key) ==> w.dirty_keys == v.dirty_keys)
            &&& w.recent_changes.len() == v.recent_changes.len() + 1
            &&& w.recent_changes.last().old_value == v.value_of(key)
            &&& w.recent_changes.last().new_value == Some(value)
            &&& w.recent_changes.last().revision == w.total_revision
        }),
{
    let w = set_result(v, key, value);
    assert(w.dirty_keys.contains(key)) by {
        if !v.dirty_keys.contains(key) {
            assert(w.dirty_keys[w.dirty_keys.len() - 1] == key);
        }
    }
}

/// Writing the same value twice changes the blackboard once: the second write
/// reports no change (for values without NaN components, which are unequal
/// to themselves).
pub proof fn law_repeated_write_is_noop(v: BlackboardView, key: BlackboardKeyId, value: BlackboardValue)
    requires
        v.slots_cover(key),
        value_eq(value, value),
        set_outcome(v, key, value) is Ok,
    ensures
        set_outcome(set_result(v, key, value), key, value) == Ok::<bool, Seq<char>>(false),
        set_result(set_result(v, key, value), key, value) == set_result(v, key, value),
{
}

/// After a clear the key reads as absent.
pub proof fn law_read_after_clear(v: BlackboardView, key: BlackboardKeyId)
    requires
        v.slots_cover(key),
        clear_outcome(v, key) is Ok,
    ensures
        clear_result(v, key).value_of(key) is None,
{
}

/// Writes and clears keep every schema key backed by a slot and a revision.
pub proof fn law_writes_keep_slots(v: BlackboardView, key: BlackboardKeyId, value: BlackboardValue)
    requires
        v.wf(),
    ensures
        set_result(v, key, value).wf(),
        clear_result(v, key).wf(),
        set_result(v, key, value).keys == v.keys,
        clear_result(v, key).keys == v.keys,
{
}


/// The integer conditions compare the stored integer with their bound:
/// `IntLessThan(b)` holds exactly of an integer below `b` and
/// `IntGreaterThan(b)` exactly of an integer above it. Neither holds of a
/// missing value or of a value of another type, and an integer meets at most
/// one of them (neither when it equals the bound).
pub proof fn law_int_conditions_follow_integer_order(v: i32, b: i32, value: Option<BlackboardValue>)
    ensures
        condition_holds(BlackboardCondition::IntLessThan(b), Some(BlackboardValue::Int(v))) <==> v < b,
        condition_holds(BlackboardCondition::IntGreaterThan(b), Some(BlackboardValue::Int(v))) <==> v > b,
        condition_holds(BlackboardCondition::IntLessThan(b), value) ==> (value matches Some(
            BlackboardValue::Int(x),
        ) && x < b),
        condition_holds(BlackboardCondition::IntGreaterThan(b), value) ==> (value matches Some(
            BlackboardValue::Int(x),
        ) && x > b),
        !(condition_holds(BlackboardCondition::IntLessThan(b), value) && condition_holds(
            BlackboardCondition::IntGreaterThan(b),
            value,
        )),
{
}

/// The float conditions compare the stored float with their bound as `f32`
/// values: `FloatLessThan(b)` holds of a float below `b`, `FloatGreaterThan(b)`
/// of one above it, and neither of a missing value, a value of another type
/// or a NaN.
pub proof fn law_float_conditions_follow_float_order(v: FloatBits, b: FloatBits, value: Option<BlackboardValue>)
    ensures
        condition_holds(BlackboardCondition::FloatLessThan(b), Some(BlackboardValue::Float(v))) <==> float_lt(v, b),
        condition_holds(BlackboardCondition::FloatGreaterThan(b), Some(BlackboardValue::Float(v))) <==> float_lt(
            b,
            v,
        ),
        condition_holds(BlackboardCondition::FloatLessThan(b), value) ==> value is Some && value->0 is Float,
        condition_holds(BlackboardCondition::FloatGreaterThan(b), value) ==> value is Some && value->0 is Float,
        !(condition_holds(BlackboardCondition::FloatLessThan(b), value) && condition_holds(
            BlackboardCondition::FloatGreaterThan(b),
            value,
        )),
{
}

/// The paired conditions are each other's negation on every value:
/// `Missing` of `Exists`, `IsFalse` of `IsTrue`, `NotEquals(x)` of
/// `Equals(x)`. `IsTrue` holds only of a stored `true`, so a missing value or
/// a value of another type is "false"; `Equals(x)` holds of `x` itself unless
/// `x` has a NaN component.
pub proof fn law_paired_conditions_are_complementary(value: Option<BlackboardValue>, expected: BlackboardValue)
    ensures
        condition_holds(BlackboardCondition::Missing, value) == !condition_holds(BlackboardCondition::Exists, value),
        condition_holds(BlackboardCondition::IsFalse, value) == !condition_holds(BlackboardCondition::IsTrue, value),
        condition_holds(BlackboardCondition::NotEquals(expected), value) == !condition_holds(
            BlackboardCondition::Equals(expected),
            value,
        ),
        condition_holds(BlackboardCondition::Exists, value) <==> value is Some,
        condition_holds(BlackboardCondition::IsTrue, value) <==> value == Some(BlackboardValue::Bool(true)),
        condition_holds(BlackboardCondition::Equals(expected), value) ==> value is Some,
        value_eq(expected, expected) ==> condition_holds(BlackboardCondition::Equals(expected), Some(expected)),
{
}

/// Values of different types are never equal; booleans, integers and
/// entities are equal exactly when they hold the same value, and texts
/// exactly when they hold the same characters. Equality is symmetric.
pub proof fn law_value_equality_compares_contents(
    a: bool,
    b: bool,
    m: i32,
    n: i32,
    e: EntityBits,
    f: EntityBits,
    s: String,
    t: String,
    x: BlackboardValue,
    y: BlackboardValue,
)
    ensures
        value_eq(BlackboardValue::Bool(a), BlackboardValue::Bool(b)) <==> a == b,
        value_eq(BlackboardValue::Int(m), BlackboardValue::Int(n)) <==> m == n,
        value_eq(BlackboardValue::Entity(e), BlackboardValue::Entity(f)) <==> e == f,
        value_eq(BlackboardValue::Text(s), BlackboardValue::Text(t)) <==> s@ == t@,
        type_of(x) != type_of(y) ==> !value_eq(x, y),
        value_eq(x, y) == value_eq(y, x),
{
}

/// Two equal values of a type without floats are the same value (texts: the
/// same characters).
proof fn lemma_equal_plain_values(x: BlackboardValue, y: BlackboardValue)
    requires
        value_eq(x, y),
    ensures
        (x is Bool || x is Int || x is Entity) ==> x == y,
        x matches BlackboardValue::Text(s) ==> (y matches BlackboardValue::Text(t) && s@ == t@),
{
}

/// A write that `set` accepts leaves the key holding the written value,
/// whether or not it reports a change: a boolean, integer or entity exactly,
/// a text with the same characters, and a float (or vector) equal to it as
/// `f32` values. A write of another entity, integer or boolean than the one
/// stored is always reported as a change.
pub proof fn law_accepted_write_stores_value(v: BlackboardView, key: BlackboardKeyId, value: BlackboardValue)
    requires
        v.slots_cover(key),
        set_outcome(v, key, value) is Ok,
    ensures
        (value is Bool || value is Int || value is Entity) ==> set_result(v, key, value).value_of(key) == Some(
            value,
        ),
        (value is Bool || value is Int || value is Entity) ==> (set_outcome(v, key, value) == Ok::<
            bool,
            Seq<char>,
        >(false) <==> v.value_of(key) == Some(value)),
        value matches BlackboardValue::Text(t) ==> (set_result(v, key, value).value_of(key) matches Some(
            BlackboardValue::Text(s),
        ) && s@ == t@),
        value_eq(value, value) ==> opt_value_eq(set_result(v, key, value).value_of(key), Some(value)),
{
    if set_outcome(v, key, value) == Ok::<bool, Seq<char>>(false) {
        let stored = v.value_of(key)->0;
        lemma_equal_plain_values(stored, value);
    } else {
        assert(set_result(v, key, value).value_of(key) == Some(value));
    }
}

} // verus!
