use anymap_serde::{SerializableAnyMap, StableTypeId};
use serde::de::DeserializeOwned;
use serde::Serialize;
use serde_value::{DeserializerError, Value};
use std::any::Any;
use std::collections::HashMap;

type AnyMap = SerializableAnyMap<Box<dyn Any>>;

fn key(name: &str) -> StableTypeId {
    StableTypeId::from_name(name.to_string())
}

fn load<T: DeserializeOwned + 'static>(v: &Value) -> Result<Box<dyn Any>, DeserializerError> {
    T::deserialize(v.clone()).map(|t| Box::new(t) as Box<dyn Any>)
}

fn store<T: Serialize + 'static>(c: &Box<dyn Any>) -> Value {
    serde_value::to_value(c.downcast_ref::<T>().unwrap()).unwrap()
}

fn from_json(json: &str) -> AnyMap {
    let raw: HashMap<String, Value> = serde_json::from_str(json).unwrap();
    SerializableAnyMap::from_serialized_entries(
        raw.into_iter().map(|(k, v)| (StableTypeId::from_name(k), v)).collect(),
    )
}

#[test]
fn entry_should_be_removed_if_deserialization_fails() {
    let json = r#"{ "usize": "foo" }"#.to_string();
    let mut m = from_json(&json);

    assert!(m.contains(&key("usize")));
    assert!(m.entry(key("usize"), load::<usize>, store::<usize>).0.into_occupied().is_none());
    assert!(!m.contains(&key("usize")));
}
