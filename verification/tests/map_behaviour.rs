use anymap_serde::{Entry, SerializableAnyMap, StableTypeId};
use serde::de::DeserializeOwned;
use serde::{Deserialize, Serialize};
use serde_value::{DeserializerError, Value};
use std::any::Any;
use std::collections::HashMap;

type AnyMap = SerializableAnyMap<Box<dyn Any>>;

fn key(name: &str) -> StableTypeId {
    StableTypeId::from_name(name.to_string())
}

fn load<T: DeserializeOwned + 'static>(v: &Value) -> Result<Box<dyn Any>, DeserializerError> {
    T::deserialize(v.clone()).map(|t| Box::new(t) as Box<dyn Any>)
}

fn store<T: Serialize + 'static>(c: &Box<dyn Any>) -> Value {
    serde_value::to_value(c.downcast_ref::<T>().unwrap()).unwrap()
}

fn to_json(m: &AnyMap) -> String {
    let raw: HashMap<String, Value> = m
        .serialized_entries()
        .into_iter()
        .map(|(k, v)| (k.into_name(), v))
        .collect();
    serde_json::to_string(&raw).unwrap()
}

fn from_json(json: &str) -> AnyMap {
    let raw: HashMap<String, Value> = serde_json::from_str(json).unwrap();
    SerializableAnyMap::from_serialized_entries(
        raw.into_iter().map(|(k, v)| (StableTypeId::from_name(k), v)).collect(),
    )
}

fn downcast<T: Copy + 'static>(c: &Box<dyn Any>) -> T {
    *c.downcast_ref::<T>().unwrap()
}

#[test]
fn new_map_is_empty() {
    let m = AnyMap::new();
    assert_eq!(m.len(), 0);
    assert!(m.is_empty());
    let d = AnyMap::default();
    assert!(d.is_empty());
}

#[test]
fn insert_counts_one_entry_per_type() {
    let mut m = AnyMap::with_capacity(8);
    m.insert(key("u32"), Box::new(42u32), store::<u32>);
    m.insert(key("u16"), Box::new(42u16), store::<u16>);
    m.insert(key("u8"), Box::new(42u8), store::<u8>);
    assert_eq!(m.len(), 3);
    assert!(!m.is_empty());
    m.insert(key("u8"), Box::new(7u8), store::<u8>);
    assert_eq!(m.len(), 3);
    assert!(m.capacity() >= 3);
}

#[test]
fn capacity_follows_reserve_and_shrink() {
    let mut m = AnyMap::with_capacity(128);
    m.insert(key("u32"), Box::new(42u32), store::<u32>);
    m.insert(key("u16"), Box::new(42u16), store::<u16>);
    m.insert(key("u8"), Box::new(42u8), store::<u8>);
    m.shrink_to(64);
    assert_eq!(m.len(), 3);
    assert!(m.capacity() < 128);
    assert!(m.capacity() >= 64);
    m.shrink_to_fit();
    assert_eq!(m.len(), 3);
    m.reserve(5);
    assert!(m.capacity() >= 8);
    m.try_reserve(5).expect("not to fail");
    assert!(m.capacity() >= 8);
    assert_eq!(m.len(), 3);
}

#[test]
fn clear_removes_everything() {
    let mut m = AnyMap::with_capacity(128);
    m.insert(key("u32"), Box::new(42u32), store::<u32>);
    m.clear();
    assert!(m.is_empty());
    assert!(!m.contains(&key("u32")));
}

#[test]
fn insert_returns_previous_value() {
    let mut m = AnyMap::new();
    assert!(m.insert(key("u32"), Box::new(1u32), store::<u32>).is_none());
    let mut old = m.insert(key("u32"), Box::new(2u32), store::<u32>).unwrap();
    assert_eq!(downcast::<u32>(old.get(load::<u32>, store::<u32>).ok().unwrap()), 1u32);
    assert_eq!(downcast::<u32>(m.try_get(&key("u32")).unwrap()), 2u32);
}

#[test]
fn try_get_does_not_deserialize() {
    let mut m = from_json(r#"{ "u32": 42 }"#);
    m.insert(key("u16"), Box::new(42u16), store::<u16>);
    assert!(m.try_get(&key("u32")).is_none());
    assert_eq!(downcast::<u16>(m.try_get(&key("u16")).unwrap()), 42u16);
    let v = m.get(key("u32"), load::<u32>, store::<u32>).unwrap().unwrap();
    assert_eq!(downcast::<u32>(v), 42u32);
    assert_eq!(downcast::<u32>(m.try_get(&key("u32")).unwrap()), 42u32);
}

#[test]
fn failed_deserialization_removes_entry() {
    let mut m = from_json(r#"{ "u32": "boom" }"#);
    m.insert(key("u16"), Box::new(42u16), store::<u16>);
    assert_eq!(m.len(), 2);
    assert!(matches!(m.get(key("u32"), load::<u32>, store::<u32>), Some(Err(_))));
    assert_eq!(m.len(), 1);
    assert!(m.get(key("u32"), load::<u32>, store::<u32>).is_none());
    let v = m.get(key("u16"), load::<u16>, store::<u16>).unwrap().ok().unwrap();
    assert_eq!(downcast::<u16>(v), 42u16);
}

#[test]
fn failed_deserialization_removes_entry_through_get_mut() {
    let mut m = from_json(r#"{ "u32": "boom" }"#);
    m.insert(key("u16"), Box::new(42u16), store::<u16>);
    assert_eq!(m.len(), 2);
    assert!(matches!(m.get_mut(key("u32"), load::<u32>, store::<u32>), Some(Err(_))));
    assert_eq!(m.len(), 1);
    assert!(m.get_mut(key("u32"), load::<u32>, store::<u32>).is_none());
    let g = m.get_mut(key("u16"), load::<u16>, store::<u16>).unwrap().unwrap();
    assert_eq!(downcast::<u16>(g.deref()), 42u16);
}

#[test]
fn deserialized_copy_is_made_from_serialized_form() {
    let mut m = AnyMap::new();
    m.insert(key("u32"), Box::new(42u32), store::<u32>);
    let c = m.get_deserialized_copy(&key("u32"), load::<u32>).unwrap();
    assert_eq!(downcast::<u32>(&c), 42u32);

    // A serializer that forgets the value: the copy shows what was serialized,
    // while the stored value is kept as inserted.
    m.insert(key("u64"), Box::new(43u64), |_c: &Box<dyn Any>| Value::U64(0));
    let c = m.get_deserialized_copy(&key("u64"), load::<u64>).unwrap();
    assert_eq!(downcast::<u64>(&c), 0u64);
    assert_eq!(downcast::<u64>(m.try_get(&key("u64")).unwrap()), 43u64);
    assert!(m.get_deserialized_copy(&key("i64"), load::<i64>).is_none());
    assert!(m.get_deserialized_copy(&key("u32"), load::<String>).is_none());
}

#[test]
fn serialized_value_is_stored_at_insert() {
    let mut m = AnyMap::new();
    m.insert(key("u16"), Box::new(42u16), store::<u16>);
    assert_eq!(m.get_serialized_value(&key("u16")).unwrap(), &Value::U16(42));
    assert!(m.get_serialized_value(&key("u8")).is_none());
}

#[test]
fn insert_only_serialized_defers_deserialization() {
    let mut m = AnyMap::new();
    m.insert_only_serialized(key("u32"), Value::String("boom".to_string()));
    m.insert_only_serialized(key("u16"), Value::U64(42));
    assert_eq!(m.len(), 2);
    assert!(!m.contains_deserialized(&key("u16")));
    assert!(matches!(m.get_mut(key("u32"), load::<u32>, store::<u32>), Some(Err(_))));
    assert_eq!(m.len(), 1);
    assert!(m.get_mut(key("u32"), load::<u32>, store::<u32>).is_none());
    let g = m.get_mut(key("u16"), load::<u16>, store::<u16>).unwrap().unwrap();
    assert_eq!(downcast::<u16>(g.into_ref(store::<u16>)), 42u16);
    // The serialized form was written anew from the deserialized value.
    assert_eq!(m.get_serialized_value(&key("u16")).unwrap(), &Value::U16(42));
}

#[test]
fn try_insert_fails_when_occupied() {
    let mut m = AnyMap::new();
    let g = m.try_insert(key("u32"), Box::new(1u32), load::<u32>, store::<u32>).ok().unwrap();
    assert_eq!(downcast::<u32>(g.into_ref(store::<u32>)), 1u32);
    let err = m.try_insert(key("u32"), Box::new(5u32), load::<u32>, store::<u32>);
    match err {
        Ok(_) => panic!("the second insert must fail"),
        Err(e) => {
            assert_eq!(downcast::<u32>(&e.value), 5u32);
            assert_eq!(downcast::<u32>(e.entry.try_get().unwrap()), 1u32);
        }
    }
    assert_eq!(downcast::<u32>(m.try_get(&key("u32")).unwrap()), 1u32);
}

#[test]
fn try_insert_replaces_value_that_cannot_be_read() {
    let mut m = from_json(r#"{ "u32": "boom" }"#);
    let g = m.try_insert(key("u32"), Box::new(3u32), load::<u32>, store::<u32>).ok().unwrap();
    assert_eq!(downcast::<u32>(g.deref()), 3u32);
    assert_eq!(m.len(), 1);
    assert_eq!(m.get_serialized_value(&key("u32")).unwrap(), &Value::U32(3));
}

#[test]
fn remove_returns_value_once() {
    let mut m = AnyMap::new();
    m.insert(key("u32"), Box::new(1u32), store::<u32>);
    assert_eq!(m.remove(&key("u32"), load::<u32>).map(|c| downcast::<u32>(&c)), Some(1u32));
    assert!(m.remove(&key("u32"), load::<u32>).is_none());

    let mut m = from_json(r#"{ "u32": "boom" }"#);
    assert!(m.remove(&key("u32"), load::<u32>).is_none());
    assert!(!m.contains(&key("u32")));

    let mut m = from_json(r#"{ "u32": 7 }"#);
    assert_eq!(m.remove(&key("u32"), load::<u32>).map(|c| downcast::<u32>(&c)), Some(7u32));
    assert!(m.is_empty());
}

#[test]
fn contains_ignores_deserialization_state() {
    let mut m = AnyMap::new();
    assert!(!m.contains(&key("u32")));
    m.insert(key("u32"), Box::new(1u32), store::<u32>);
    assert!(m.contains(&key("u32")));

    let m = from_json(r#"{ "u32": "boom", "u16": 42 }"#);
    assert!(m.contains(&key("u32")));
    assert!(m.contains(&key("u16")));
}

#[test]
fn contains_deserialized_tracks_lazy_access() {
    let mut m = AnyMap::new();
    assert!(!m.contains_deserialized(&key("u32")));
    m.insert(key("u32"), Box::new(1u32), store::<u32>);
    assert!(m.contains_deserialized(&key("u32")));

    let mut m = from_json(r#"{ "u32": "boom", "u16": 42 }"#);
    assert!(!m.contains_deserialized(&key("u32")));
    assert!(!m.contains_deserialized(&key("u16")));
    let _ = m.get_mut(key("u16"), load::<u16>, store::<u16>);
    assert!(m.contains_deserialized(&key("u16")));
}

#[test]
fn entry_api_modifies_and_inserts() {
    let mut m = AnyMap::new();
    m.insert(key("u32"), Box::new(1u32), store::<u32>);
    let _ = m
        .entry(key("u32"), load::<u32>, store::<u32>)
        .0
        .and_modify(|c| Box::new(downcast::<u32>(&c) + 1), load::<u32>, store::<u32>);
    let _ = m
        .entry(key("u16"), load::<u16>, store::<u16>)
        .0
        .or_insert(Box::new(42u16), load::<u16>, store::<u16>);
    {
        let mut g = m
            .entry(key("u8"), load::<u8>, store::<u8>)
            .0
            .or_insert_with(|| Box::new(u8::default()), load::<u8>, store::<u8>)
            .unwrap();
        *g.deref_mut().downcast_mut::<u8>().unwrap() += 1;
        g.commit(store::<u8>);
    }

    assert_eq!(downcast::<u32>(m.get(key("u32"), load::<u32>, store::<u32>).unwrap().unwrap()), 2u32);
    assert_eq!(downcast::<u16>(m.get(key("u16"), load::<u16>, store::<u16>).unwrap().unwrap()), 42u16);
    assert_eq!(downcast::<u8>(m.get(key("u8"), load::<u8>, store::<u8>).unwrap().unwrap()), 1u8);
    assert_eq!(m.get_serialized_value(&key("u32")).unwrap(), &Value::U32(2));
    assert_eq!(m.get_serialized_value(&key("u8")).unwrap(), &Value::U8(1));
}

#[test]
fn entry_or_default_on_plain_values() {
    let mut m: SerializableAnyMap<u32> = SerializableAnyMap::new();
    let store_u32 = |c: &u32| serde_value::to_value(*c).unwrap();
    let load_u32 = |v: &Value| u32::deserialize(v.clone());
    {
        let mut g = m.entry(key("counter"), load_u32, store_u32).0.or_default(load_u32, store_u32).unwrap();
        *g.deref_mut() += 1;
        g.commit(store_u32);
    }
    assert_eq!(m.try_get(&key("counter")), Some(&1u32));
    assert_eq!(m.get_serialized_value(&key("counter")).unwrap(), &Value::U32(1));
}

#[test]
fn entry_reports_failed_deserialization() {
    let mut m = from_json(r#"{ "u32": "boom" }"#);
    let (e, err) = m.entry(key("u32"), load::<u32>, store::<u32>);
    assert!(err.is_some());
    assert!(e.into_vacant().is_some());
    assert!(m.is_empty());
}

#[test]
fn occupied_entry_operations() {
    let mut m = AnyMap::new();
    m.insert(key("u32"), Box::new(1u32), store::<u32>);
    let mut occ = match m.entry(key("u32"), load::<u32>, store::<u32>).0 {
        Entry::Occupied(o) => o,
        Entry::Vacant(_) => panic!("must be occupied"),
    };
    assert_eq!(downcast::<u32>(occ.try_get().unwrap()), 1u32);
    assert_eq!(downcast::<u32>(occ.get(load::<u32>, store::<u32>).unwrap()), 1u32);
    let old = occ.insert(Box::new(9u32), load::<u32>, store::<u32>).unwrap();
    assert_eq!(downcast::<u32>(&old), 1u32);
    {
        let mut g = occ.get_mut(load::<u32>).unwrap();
        *g.deref_mut().downcast_mut::<u32>().unwrap() = 10;
        g.commit(store::<u32>);
    }
    let removed = occ.remove(load::<u32>).unwrap();
    assert_eq!(downcast::<u32>(&removed), 10u32);
    assert!(!m.contains(&key("u32")));
}

#[test]
fn vacant_entry_operations() {
    let mut m = AnyMap::new();
    match m.entry(key("u32"), load::<u32>, store::<u32>).0 {
        Entry::Vacant(v) => v.insert_serialized(Value::U32(5)),
        Entry::Occupied(_) => panic!("must be vacant"),
    }
    assert!(!m.contains_deserialized(&key("u32")));
    let v = m.get(key("u32"), load::<u32>, store::<u32>).unwrap().unwrap();
    assert_eq!(downcast::<u32>(v), 5u32);
    match m.entry(key("u8"), load::<u8>, store::<u8>).0 {
        Entry::Vacant(v) => {
            let g = v.insert(Box::new(3u8), store::<u8>);
            assert_eq!(downcast::<u8>(g.deref()), 3u8);
        }
        Entry::Occupied(_) => panic!("must be vacant"),
    }
    assert_eq!(m.get_serialized_value(&key("u8")).unwrap(), &Value::U8(3));
}

#[test]
fn keys_lists_each_type_once() {
    let mut m = AnyMap::new();
    m.insert(key("u32"), Box::new(1u32), store::<u32>);
    assert_eq!(m.keys(), vec![key("u32")]);
    m.insert(key("u8"), Box::new(1u8), store::<u8>);
    m.insert(key("u32"), Box::new(2u32), store::<u32>);
    let ks = m.keys();
    assert_eq!(ks.len(), 2);
    assert!(ks.contains(&key("u32")) && ks.contains(&key("u8")));
}

#[test]
fn clone_keeps_serialized_forms_only() {
    let mut m = AnyMap::new();
    m.insert(key("u32"), Box::new(1u32), store::<u32>);
    let mut c = m.clone();
    assert!(c.contains(&key("u32")));
    assert!(!c.contains_deserialized(&key("u32")));
    assert!(c.try_get(&key("u32")).is_none());
    assert_eq!(downcast::<u32>(c.get(key("u32"), load::<u32>, store::<u32>).unwrap().unwrap()), 1u32);
    assert!(m.contains_deserialized(&key("u32")));
}

#[test]
fn raw_entries_round_trip() {
    let mut m = AnyMap::new();
    m.insert(key("u32"), Box::new(1u32), store::<u32>);
    assert_eq!(m.as_raw().len(), 1);
    let raw = m.into_raw();
    let m2 = AnyMap::from_raw(raw);
    assert!(m2.contains_deserialized(&key("u32")));
    assert_eq!(m2.len(), 1);
}

#[test]
fn extend_keeps_last_value() {
    let mut m = AnyMap::new();
    m.extend(&key("u32"), vec![Box::new(1u32) as Box<dyn Any>, Box::new(2u32)], store::<u32>);
    assert_eq!(m.len(), 1);
    assert_eq!(downcast::<u32>(m.try_get(&key("u32")).unwrap()), 2u32);
    assert_eq!(m.get_serialized_value(&key("u32")).unwrap(), &Value::U32(2));
    m.extend(&key("u8"), Vec::new(), store::<u8>);
    assert_eq!(m.len(), 1);
}

#[test]
fn serialization_round_trip_keeps_serialized_forms() {
    let mut m = AnyMap::new();
    m.insert(key("u32"), Box::new(1u32), store::<u32>);
    m.insert_only_serialized(key("u8"), Value::U8(9));
    let entries = m.serialized_entries();
    assert_eq!(entries.len(), 2);
    let m2 = AnyMap::from_serialized_entries(entries);
    assert_eq!(m2.len(), 2);
    assert_eq!(m2.get_serialized_value(&key("u32")).unwrap(), &Value::U32(1));
    assert_eq!(m2.get_serialized_value(&key("u8")).unwrap(), &Value::U8(9));
    assert!(!m2.contains_deserialized(&key("u32")));
    assert!(!m2.contains_deserialized(&key("u8")));
}

#[test]
fn later_serialized_entry_wins() {
    let m = AnyMap::from_serialized_entries(vec![
        (key("u8"), Value::U8(1)),
        (key("u8"), Value::U8(2)),
    ]);
    assert_eq!(m.len(), 1);
    assert_eq!(m.get_serialized_value(&key("u8")).unwrap(), &Value::U8(2));
}

#[test]
fn item_accessors() {
    let mut m = from_json(r#"{ "u16": 42 }"#);
    let mut old = m.insert(key("u16"), Box::new(43u16), store::<u16>).unwrap();
    assert!(old.try_get().is_none());
    let _ = old.get(load::<u16>, store::<u16>);
    assert_eq!(downcast::<u16>(old.try_get().unwrap()), 42u16);

    let mut m = from_json(r#"{ "u32": "boom" }"#);
    let mut old = m.insert(key("u32"), Box::new(43u32), store::<u32>).unwrap();
    assert!(old.get(load::<u32>, store::<u32>).is_err());
    assert!(old.get(load::<u32>, store::<u32>).is_err());

    let mut m = from_json(r#"{ "u16": 42 }"#);
    let mut old = m.insert(key("u16"), Box::new(43u16), store::<u16>).unwrap();
    {
        let mut g = old.get_mut(load::<u16>).ok().unwrap();
        *g.deref_mut().downcast_mut::<u16>().unwrap() += 100;
        g.commit(store::<u16>);
    }
    assert_eq!(downcast::<u16>(old.get_mut(load::<u16>).ok().unwrap().deref()), 142u16);

    let mut m = from_json(r#"{ "u32": 42 }"#);
    let item = m.insert(key("u32"), Box::new(41u32), store::<u32>).unwrap();
    assert_eq!(downcast::<u32>(&item.into_inner(load::<u32>).ok().unwrap()), 42u32);
}

#[test]
fn stable_type_id_names() {
    let k = key("i32");
    assert_eq!(k.to_string(), "i32");
    assert!(k.same(&key("i32")));
    assert!(!k.same(&key("u32")));
    assert_eq!(k, key("i32"));
    assert_eq!(k.clone().into_name(), "i32".to_string());
}

#[test]
fn json_round_trip_of_whole_map() {
    let mut m = AnyMap::new();
    m.insert(key("alloc::string::String"), Box::new("hello".to_string()), store::<String>);
    m.insert(key("usize"), Box::new(42usize), store::<usize>);
    let json = to_json(&m);
    let mut m2 = from_json(&json);
    assert!(m2.try_get(&key("alloc::string::String")).is_none());
    let s = m2.get(key("alloc::string::String"), load::<String>, store::<String>).unwrap().unwrap();
    assert_eq!(s.downcast_ref::<String>().unwrap(), "hello");
    let _ = m2.entry(key("usize"), load::<usize>, store::<usize>).0.and_modify(
        |c| Box::new(downcast::<usize>(&c) + 1),
        load::<usize>,
        store::<usize>,
    );
    assert_eq!(downcast::<usize>(m2.try_get(&key("usize")).unwrap()), 43usize);
}

#[test]
fn try_reserve_fails_on_capacity_overflow() {
    let mut m = AnyMap::new();
    m.insert(key("u32"), Box::new(1u32), store::<u32>);
    assert!(m.try_reserve(usize::MAX).is_err());
    assert_eq!(m.len(), 1);
    assert_eq!(downcast::<u32>(m.try_get(&key("u32")).unwrap()), 1u32);
}
