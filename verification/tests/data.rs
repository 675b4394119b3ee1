use std::any::TypeId;
use std::collections::HashMap;

use ure::ure_data::component::component_id;
use ure::ure_data::data::{Component, ComponentCommand, ComponentId};
use ure::ure_data::func::{Func, FunctionId, Impl, ImplError};

#[test]
fn component_id_is_the_fnv1a_hash_of_the_name() {
    assert_eq!(ComponentId::new("").get(), 0xcbf29ce484222325);
    assert_eq!(ComponentId::new("a").get(), 0xaf63dc4c8601ec8c);
    assert_eq!(ComponentId::new("foobar").get(), 0x85944171f73967e8);
    assert_eq!(component_id("foobar"), 0x85944171f73967e8);
    assert_eq!(format!("{:?}", ComponentId::new("foobar")), "ComponentId { inner: 9625390261332436968 }");
}

#[test]
fn function_ids_follow_names() {
    assert_eq!(FunctionId::new("new"), FunctionId::new("new"));
    assert_ne!(FunctionId::new("new"), FunctionId::new("delete"));
}

#[test]
fn component_command_clone() {
    let c = ComponentCommand::Delete { range: 2..5 };
    match c.clone() {
        ComponentCommand::Delete { range } => assert_eq!(range, 2..5),
        _ => panic!("wrong variant"),
    }
    match (ComponentCommand::New { num: 3 }).clone() {
        ComponentCommand::New { num } => assert_eq!(num, 3),
        _ => panic!("wrong variant"),
    }
}

fn leak<T>(v: Vec<T>) -> &'static [T] {
    Box::leak(v.into_boxed_slice())
}

fn sample_func() -> Func<u32> {
    let a = ComponentId::new("a");
    let b = ComponentId::new("b");
    Func::new(
        FunctionId::new("sample"),
        leak(vec![a, b]),
        leak(vec![
            Impl { component_types: leak(vec![TypeId::of::<Vec<u8>>(), TypeId::of::<Vec<u8>>()]), implementation: 1 },
            Impl { component_types: leak(vec![TypeId::of::<Vec<u8>>(), TypeId::of::<Vec<u16>>()]), implementation: 2 },
            Impl { component_types: leak(vec![TypeId::of::<Vec<u8>>(), TypeId::of::<Vec<u16>>()]), implementation: 3 },
        ]),
    )
}

#[test]
fn implement_picks_the_first_matching_impl() {
    let f = sample_func();
    let mut types = HashMap::new();
    types.insert(ComponentId::new("a").get(), TypeId::of::<Vec<u8>>());
    types.insert(ComponentId::new("b").get(), TypeId::of::<Vec<u16>>());
    assert!(matches!(f.implement(&types), Ok(2)));
    types.insert(ComponentId::new("b").get(), TypeId::of::<Vec<u8>>());
    assert!(matches!(f.implement(&types), Ok(1)));
}

#[test]
fn implement_reports_a_missing_component() {
    let f = sample_func();
    let mut types = HashMap::new();
    types.insert(ComponentId::new("a").get(), TypeId::of::<Vec<u8>>());
    assert_eq!(f.implement(&types).err(), Some(ImplError::MissingComponent));
}

#[test]
fn implement_reports_invalid_containers() {
    let f = sample_func();
    let mut types = HashMap::new();
    types.insert(ComponentId::new("a").get(), TypeId::of::<Vec<u16>>());
    types.insert(ComponentId::new("b").get(), TypeId::of::<Vec<u16>>());
    assert_eq!(f.implement(&types).err(), Some(ImplError::InvalidContainers));
}

#[test]
fn component_new_keeps_its_functions() {
    let new: &'static Func<u32> = Box::leak(Box::new(sample_func()));
    let delete: &'static Func<u32> = Box::leak(Box::new(sample_func()));
    let _c = Component::new("position", new, delete);
}
