use anymap_serde::{SerializableAnyMap, StableTypeId};
use serde::de::DeserializeOwned;
use serde::Serialize;
use serde_value::{DeserializerError, Value};
use std::any::Any;
use std::collections::HashMap;

type AnyMap = SerializableAnyMap<Box<dyn Any>>;

fn key(name: &str) -> StableTypeId {
    StableTypeId::from_name(name.to_string())
}

fn load<T: DeserializeOwned + 'static>(v: &Value) -> Result<Box<dyn Any>, DeserializerError> {
    T::deserialize(v.clone()).map(|t| Box::new(t) as Box<dyn Any>)
}

fn store<T: Serialize + 'static>(c: &Box<dyn Any>) -> Value {
    serde_value::to_value(c.downcast_ref::<T>().unwrap()).unwrap()
}

fn to_json(m: &AnyMap) -> String {
    let raw: HashMap<String, Value> = m
        .serialized_entries()
        .into_iter()
        .map(|(k, v)| (k.into_name(), v))
        .collect();
    serde_json::to_string(&raw).unwrap()
}

fn from_json(json: &str) -> AnyMap {
    let raw: HashMap<String, Value> = serde_json::from_str(json).unwrap();
    SerializableAnyMap::from_serialized_entries(
        raw.into_iter().map(|(k, v)| (StableTypeId::from_name(k), v)).collect(),
    )
}

fn read_usize(m: &mut AnyMap) -> Option<usize> {
    m.get_mut(key("usize"), load::<usize>, store::<usize>)
        .map(|v| *v.unwrap().deref().downcast_ref::<usize>().unwrap())
}

// The library's guard has no destructor (the typed front end commits on
// drop); here the commit that the drop performs is made explicitly.
#[test]
fn modifications_should_be_reflected_after_serialization() {
    let mut m = AnyMap::new();
    m.insert(key("usize"), Box::new(0usize), store::<usize>);
    {
        let mut guard = m.get_mut(key("usize"), load::<usize>, store::<usize>).unwrap().unwrap();
        *guard.deref_mut().downcast_mut::<usize>().unwrap() = 1usize;
        guard.commit(store::<usize>);
    }

    let json = to_json(&m);
    let mut m2 = from_json(&json);

    assert_eq!(read_usize(&mut m2), Some(1usize));
}

#[test]
fn into_ref_on_guard_correctly_re_serializes() {
    let mut m = AnyMap::new();
    m.insert(key("usize"), Box::new(0usize), store::<usize>);

    let mut guard = m.get_mut(key("usize"), load::<usize>, store::<usize>).unwrap().unwrap();
    *guard.deref_mut().downcast_mut::<usize>().unwrap() = 1usize;
    let _ref: &usize = guard.into_ref(store::<usize>).downcast_ref::<usize>().unwrap();

    let json = to_json(&m);
    let mut m2 = from_json(&json);

    assert_eq!(read_usize(&mut m2), Some(1usize));
}
