use saddle_ai_behavior_tree::blackboard::{
    BehaviorTreeBlackboard, BlackboardCondition, BlackboardKeyDefinition, BlackboardKeyDirection,
    BlackboardKeyId, BlackboardSchema, BlackboardValue, BlackboardValueType, Vec3Bits,
};
use saddle_ai_behavior_tree::float_bits::FloatBits;

fn bits(x: f32) -> FloatBits {
    FloatBits(x.to_bits())
}

fn vec3(x: f32, y: f32, z: f32) -> Vec3Bits {
    Vec3Bits { x: bits(x), y: bits(y), z: bits(z) }
}

fn key(
    id: u16,
    name: &str,
    value_type: BlackboardValueType,
    direction: BlackboardKeyDirection,
    default_value: Option<BlackboardValue>,
) -> BlackboardKeyDefinition {
    BlackboardKeyDefinition {
        id: BlackboardKeyId(id),
        name: name.to_owned(),
        value_type,
        direction,
        required: false,
        default_value,
        description: String::new(),
    }
}

#[test]
fn typed_get_set_and_clear_work() {
    let schema = BlackboardSchema {
        keys: vec![
            key(0, "visible", BlackboardValueType::Bool, BlackboardKeyDirection::Input, Some(true.into())),
            key(1, "target", BlackboardValueType::Vec3, BlackboardKeyDirection::InOut, None),
        ],
    };
    let mut blackboard = BehaviorTreeBlackboard::from_schema(&schema);

    assert_eq!(blackboard.get_bool(BlackboardKeyId(0)), Some(true));
    assert_eq!(blackboard.get_vec3(BlackboardKeyId(1)), None);

    assert!(blackboard
        .set(BlackboardKeyId(1), BlackboardValue::Vec3(vec3(1.0, 2.0, 3.0)))
        .unwrap());
    assert_eq!(blackboard.get_vec3(BlackboardKeyId(1)), Some(vec3(1.0, 2.0, 3.0)));
    assert!(blackboard.clear(BlackboardKeyId(1)).unwrap());
    assert_eq!(blackboard.get_vec3(BlackboardKeyId(1)), None);
}

#[test]
fn schema_resize_preserves_matching_values_by_name() {
    let old_schema = BlackboardSchema {
        keys: vec![
            key(0, "alert", BlackboardValueType::Bool, BlackboardKeyDirection::InOut, Some(false.into())),
            key(1, "count", BlackboardValueType::Int, BlackboardKeyDirection::Local, Some(0.into())),
        ],
    };
    let new_schema = BlackboardSchema {
        keys: vec![
            key(0, "count", BlackboardValueType::Int, BlackboardKeyDirection::Local, Some(1.into())),
            key(
                1,
                "phase",
                BlackboardValueType::Text,
                BlackboardKeyDirection::Output,
                Some(BlackboardValue::Text("idle".to_owned())),
            ),
        ],
    };
    let mut blackboard = BehaviorTreeBlackboard::from_schema(&old_schema);
    blackboard.set(BlackboardKeyId(1), BlackboardValue::Int(7)).unwrap();

    blackboard.resize_to_schema(&new_schema, true);

    assert_eq!(blackboard.get_int(BlackboardKeyId(0)), Some(7));
    assert_eq!(blackboard.get_text(BlackboardKeyId(1)), Some("idle"));
}

#[test]
fn condition_evaluation_matches_value_shape() {
    let value = BlackboardValue::Float(bits(3.5));
    assert!(BlackboardCondition::FloatGreaterThan(bits(3.0)).evaluate(Some(&value)));
    assert!(BlackboardCondition::NotEquals(BlackboardValue::Float(bits(2.0))).evaluate(Some(&value)));
    assert!(!BlackboardCondition::IsTrue.evaluate(Some(&value)));
    assert!(BlackboardCondition::Missing.evaluate(None));
}

fn two_key_blackboard() -> BehaviorTreeBlackboard {
    let schema = BlackboardSchema {
        keys: vec![
            key(0, "alarm", BlackboardValueType::Bool, BlackboardKeyDirection::Input, Some(false.into())),
            key(1, "count", BlackboardValueType::Int, BlackboardKeyDirection::Local, None),
        ],
    };
    BehaviorTreeBlackboard::from_schema(&schema)
}

#[test]
fn unknown_key_is_refused_with_its_number() {
    let mut blackboard = two_key_blackboard();
    assert_eq!(
        blackboard.set(BlackboardKeyId(17), BlackboardValue::Bool(true)),
        Err("unknown blackboard key BlackboardKeyId(17)".to_owned())
    );
    assert_eq!(
        blackboard.clear(BlackboardKeyId(305)),
        Err("unknown blackboard key BlackboardKeyId(305)".to_owned())
    );
    assert_eq!(blackboard.total_revision, 0);
}

#[test]
fn mistyped_write_is_refused() {
    let mut blackboard = two_key_blackboard();
    assert_eq!(
        blackboard.set(BlackboardKeyId(0), BlackboardValue::Int(3)),
        Err("blackboard key 'alarm' expects Bool, got Int".to_owned())
    );
    assert_eq!(blackboard.get_bool(BlackboardKeyId(0)), Some(false));
    assert!(blackboard.dirty_keys.is_empty());
}

#[test]
fn writes_bump_revisions_and_record_changes() {
    let mut blackboard = two_key_blackboard();
    assert_eq!(blackboard.set(BlackboardKeyId(1), BlackboardValue::Int(4)), Ok(true));
    assert_eq!(blackboard.total_revision, 1);
    assert_eq!(blackboard.revisions[1], 1);
    assert_eq!(blackboard.dirty_keys, vec![BlackboardKeyId(1)]);
    assert_eq!(blackboard.recent_changes.len(), 1);
    assert_eq!(blackboard.recent_changes[0].name, "count");
    // The same value again changes nothing.
    assert_eq!(blackboard.set(BlackboardKeyId(1), BlackboardValue::Int(4)), Ok(false));
    assert_eq!(blackboard.total_revision, 1);
    // A second key is recorded once, after the first.
    assert_eq!(blackboard.set(BlackboardKeyId(0), BlackboardValue::Bool(true)), Ok(true));
    assert_eq!(blackboard.set(BlackboardKeyId(0), BlackboardValue::Bool(false)), Ok(true));
    assert_eq!(blackboard.total_revision, 3);
    assert_eq!(blackboard.dirty_keys, vec![BlackboardKeyId(1), BlackboardKeyId(0)]);
    assert_eq!(blackboard.take_dirty_keys(), vec![BlackboardKeyId(1), BlackboardKeyId(0)]);
    assert!(blackboard.dirty_keys.is_empty());
    assert_eq!(blackboard.take_recent_changes().len(), 3);
    assert!(blackboard.recent_changes.is_empty());
}

#[test]
fn clearing_an_empty_key_changes_nothing() {
    let mut blackboard = two_key_blackboard();
    assert_eq!(blackboard.clear(BlackboardKeyId(1)), Ok(false));
    assert_eq!(blackboard.total_revision, 0);
    assert_eq!(blackboard.clear(BlackboardKeyId(0)), Ok(true));
    assert_eq!(blackboard.get_bool(BlackboardKeyId(0)), None);
}

#[test]
fn resize_without_preserving_takes_defaults() {
    let mut blackboard = two_key_blackboard();
    blackboard.set(BlackboardKeyId(0), BlackboardValue::Bool(true)).unwrap();
    let schema = BlackboardSchema {
        keys: vec![key(0, "alarm", BlackboardValueType::Bool, BlackboardKeyDirection::Input, Some(false.into()))],
    };
    blackboard.resize_to_schema(&schema, false);
    assert_eq!(blackboard.get_bool(BlackboardKeyId(0)), Some(false));
    assert_eq!(blackboard.total_revision, 0);
}

#[test]
fn resize_drops_values_of_another_type() {
    let mut blackboard = two_key_blackboard();
    blackboard.set(BlackboardKeyId(1), BlackboardValue::Int(9)).unwrap();
    let schema = BlackboardSchema {
        keys: vec![key(0, "count", BlackboardValueType::Text, BlackboardKeyDirection::Local, None)],
    };
    blackboard.resize_to_schema(&schema, true);
    assert_eq!(blackboard.get_text(BlackboardKeyId(0)), None);
}

#[test]
fn float_comparisons_follow_ieee_rules() {
    let nan = BlackboardValue::Float(bits(f32::NAN));
    assert!(!BlackboardCondition::FloatGreaterThan(bits(0.0)).evaluate(Some(&nan)));
    assert!(!BlackboardCondition::FloatLessThan(bits(0.0)).evaluate(Some(&nan)));
    assert!(BlackboardCondition::NotEquals(BlackboardValue::Float(bits(f32::NAN))).evaluate(Some(&nan)));
    let negative_zero = BlackboardValue::Float(bits(-0.0));
    assert!(BlackboardCondition::Equals(BlackboardValue::Float(bits(0.0))).evaluate(Some(&negative_zero)));
    let small = BlackboardValue::Float(bits(-2.5));
    assert!(BlackboardCondition::FloatLessThan(bits(-1.0)).evaluate(Some(&small)));
    assert!(!BlackboardCondition::FloatGreaterThan(bits(-1.0)).evaluate(Some(&small)));
}

#[test]
fn integer_and_presence_conditions() {
    let four = BlackboardValue::Int(4);
    assert!(BlackboardCondition::IntGreaterThan(3).evaluate(Some(&four)));
    assert!(!BlackboardCondition::IntLessThan(4).evaluate(Some(&four)));
    assert!(BlackboardCondition::Exists.evaluate(Some(&four)));
    assert!(!BlackboardCondition::Exists.evaluate(None));
    assert!(BlackboardCondition::IsFalse.evaluate(None));
    assert!(BlackboardCondition::IsFalse.evaluate(Some(&BlackboardValue::Bool(false))));
    assert!(!BlackboardCondition::IntGreaterThan(0).evaluate(Some(&BlackboardValue::Bool(true))));
}

#[test]
fn schema_finds_keys_by_name() {
    let blackboard = two_key_blackboard();
    assert_eq!(blackboard.schema.find_key("count"), Some(BlackboardKeyId(1)));
    assert_eq!(blackboard.schema.find_key("missing"), None);
    assert!(blackboard.schema.key(BlackboardKeyId(2)).is_none());
}
