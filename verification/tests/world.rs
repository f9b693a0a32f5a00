use ooecs::{Component, Entity, World};
use std::sync::atomic::{AtomicIsize, Ordering};

enum X {}

struct Position {
    x: i16,
}

struct Velocity {
    x: i16,
}

enum Value {
    Position(Position),
    Velocity(Velocity),
}

fn position_x(v: Option<&Value>) -> i16 {
    match v {
        Some(Value::Position(p)) => p.x,
        _ => panic!("no position"),
    }
}

fn velocity_x(v: Option<&Value>) -> i16 {
    match v {
        Some(Value::Velocity(p)) => p.x,
        _ => panic!("no velocity"),
    }
}

#[test]
fn create_world_reg_component_drop_world() {
    let mut world = World::<X, Position>::new();
    let _position = Component::new::<Position, Position>(None, &mut world);
    drop(world);
}

#[test]
fn create_entity_modify_check() {
    let world = &mut World::<X, Value>::new();
    let position = Component::new::<Position, Value>(None, world);
    let velocity = Component::new::<Velocity, Value>(Some(position), world);
    let entity = Entity::new(velocity, world);
    entity.add(position, world, Value::Position(Position { x: 0 }));
    entity.add(velocity, world, Value::Velocity(Velocity { x: 1 }));
    assert_eq!(position_x(entity.get(position, world)), 0);
    match entity.get_mut(position, world).unwrap() {
        Value::Position(p) => p.x = 10,
        _ => panic!("no position"),
    }
    assert_eq!(position_x(entity.get(position, world)), 10);
    assert_eq!(velocity_x(entity.get(velocity, world)), 1);
    match entity.get_mut(velocity, world).unwrap() {
        Value::Velocity(v) => v.x = -1,
        _ => panic!("no velocity"),
    }
    assert_eq!(velocity_x(entity.get(velocity, world)), -1);
}

static COMPONENT_IMPL_DROP_ALIVE: AtomicIsize = AtomicIsize::new(0);

struct ComponentImplDrop;

impl ComponentImplDrop {
    pub fn new() -> Self {
        COMPONENT_IMPL_DROP_ALIVE.fetch_add(1, Ordering::Relaxed);
        ComponentImplDrop
    }
}

impl Drop for ComponentImplDrop {
    fn drop(&mut self) {
        COMPONENT_IMPL_DROP_ALIVE.fetch_sub(1, Ordering::Relaxed);
    }
}

#[test]
fn drop_components() {
    let mut world = World::<X, ComponentImplDrop>::new();
    let component = Component::new::<ComponentImplDrop, ComponentImplDrop>(None, &mut world);
    let entity_1 = Entity::new(component, &mut world);
    entity_1.add(component, &mut world, ComponentImplDrop::new());
    let entity_2 = Entity::new(component, &mut world);
    entity_2.add(component, &mut world, ComponentImplDrop::new());
    assert_eq!(COMPONENT_IMPL_DROP_ALIVE.load(Ordering::Relaxed), 2);
    entity_1.drop_entity(&mut world);
    assert_eq!(COMPONENT_IMPL_DROP_ALIVE.load(Ordering::Relaxed), 1);
    drop(world);
    assert_eq!(COMPONENT_IMPL_DROP_ALIVE.load(Ordering::Relaxed), 0);
}

/// The row of a component without a base whose values have the given size
/// and alignment: large enough and aligned for an `Option<usize>` link.
fn expected_root_row(size: usize, align: usize) -> (usize, usize) {
    let link = core::mem::size_of::<Option<usize>>();
    let link_align = core::mem::align_of::<Option<usize>>();
    let row_align = if link_align > align { link_align } else { align };
    let m = if size > align { size } else { align };
    let padded = if m > link { m } else { link };
    ((padded + row_align - 1) / row_align * row_align, row_align)
}

#[test]
fn root_layout_of_byte() {
    let mut world = World::<X, u8>::new();
    let c = Component::new::<u8, u8>(None, &mut world);
    let (size, align) = expected_root_row(1, 1);
    assert_eq!(c.layout(&world), (0, size, align));
    if core::mem::size_of::<Option<usize>>() == 16 && core::mem::align_of::<Option<usize>>() == 8 {
        assert_eq!(c.layout(&world), (0, 16, 8));
    }
}

#[test]
fn root_layout_of_zero_sized_value_takes_its_alignment() {
    let mut world = World::<X, u8>::new();
    let c = Component::new::<(), u8>(None, &mut world);
    let (size, align) = expected_root_row(1, 1);
    assert_eq!(c.layout(&world), (0, size, align));
}

#[test]
fn root_layout_of_large_value_keeps_its_size() {
    let mut world = World::<X, u8>::new();
    let c = Component::new::<[u64; 4], u8>(None, &mut world);
    let (size, align) = expected_root_row(32, 8);
    assert_eq!(c.layout(&world), (0, size, align));
    if core::mem::size_of::<Option<usize>>() == 16 && core::mem::align_of::<Option<usize>>() == 8 {
        assert_eq!(c.layout(&world), (0, 32, 8));
    }
}

#[test]
fn derived_layout_aligns_value_and_pads_row_for_free_list_link() {
    let mut world = World::<X, u8>::new();
    let base = Component::new::<u8, u8>(None, &mut world);
    let derived = Component::new::<u32, u8>(Some(base), &mut world);
    // The u32 value starts at the next multiple of 4 after the byte; the row
    // is at least as large as an `Option<usize>` and aligned for it.
    let link = core::mem::size_of::<Option<usize>>();
    let link_align = core::mem::align_of::<Option<usize>>();
    let align = if link_align > 4 { link_align } else { 4 };
    let size = ((if 8 > link { 8 } else { link }) + align - 1) / align * align;
    assert_eq!(derived.layout(&world), (4, size, align));
}

#[test]
fn chain_of_three_layouts() {
    let mut world = World::<X, u8>::new();
    let a = Component::new::<u64, u8>(None, &mut world);
    let b = Component::new::<u16, u8>(Some(a), &mut world);
    let c = Component::new::<u8, u8>(Some(b), &mut world);
    let (size, align) = expected_root_row(8, 8);
    assert_eq!(a.layout(&world), (0, size, align));
    if core::mem::size_of::<Option<usize>>() == 16 && core::mem::align_of::<Option<usize>>() == 8 {
        assert_eq!(a.layout(&world), (0, 16, 8));
        assert_eq!(b.layout(&world), (8, 16, 8));
        assert_eq!(c.layout(&world), (10, 16, 8));
    }
}

#[test]
fn get_of_component_outside_archetype_is_none() {
    let world = &mut World::<X, Value>::new();
    let position = Component::new::<Position, Value>(None, world);
    let velocity = Component::new::<Velocity, Value>(Some(position), world);
    let entity = Entity::new(position, world);
    entity.add(position, world, Value::Position(Position { x: 3 }));
    assert!(entity.get(velocity, world).is_none());
    assert_eq!(position_x(entity.get(position, world)), 3);
}

#[test]
fn base_component_of_derived_entity_is_found() {
    let world = &mut World::<X, Value>::new();
    let position = Component::new::<Position, Value>(None, world);
    let velocity = Component::new::<Velocity, Value>(Some(position), world);
    let a = Entity::new(velocity, world);
    let b = Entity::new(position, world);
    a.add(velocity, world, Value::Velocity(Velocity { x: 7 }));
    a.add(position, world, Value::Position(Position { x: 8 }));
    b.add(position, world, Value::Position(Position { x: 9 }));
    assert_eq!(velocity_x(a.get(velocity, world)), 7);
    assert_eq!(position_x(a.get(position, world)), 8);
    assert_eq!(position_x(b.get(position, world)), 9);
    assert!(b.get(velocity, world).is_none());
}

#[test]
fn remove_component_then_add_again() {
    let mut world = World::<X, i32>::new();
    let c = Component::new::<i32, i32>(None, &mut world);
    let e = Entity::new(c, &mut world);
    e.add(c, &mut world, 5);
    assert_eq!(e.remove_component(c, &mut world), 5);
    e.add(c, &mut world, 6);
    assert_eq!(e.get(c, &world), Some(&6));
}

#[test]
fn dropped_entity_id_is_not_reused() {
    let mut world = World::<X, i32>::new();
    let c = Component::new::<i32, i32>(None, &mut world);
    let old = Entity::new(c, &mut world);
    old.add(c, &mut world, 1);
    old.drop_entity(&mut world);
    let new = Entity::new(c, &mut world);
    assert!(old != new);
    assert!(new == new.clone());
    new.add(c, &mut world, 2);
    assert_eq!(new.get(c, &world), Some(&2));
}

#[test]
fn entities_keep_their_own_values() {
    let mut world = World::<X, i32>::new();
    let c = Component::new::<i32, i32>(None, &mut world);
    let mut entities = Vec::new();
    for i in 0..10 {
        let e = Entity::new(c, &mut world);
        e.add(c, &mut world, i);
        entities.push(e);
    }
    entities[3].drop_entity(&mut world);
    entities[7].drop_entity(&mut world);
    let a = Entity::new(c, &mut world);
    a.add(c, &mut world, 100);
    let b = Entity::new(c, &mut world);
    b.add(c, &mut world, 101);
    for (i, e) in entities.iter().enumerate() {
        if i != 3 && i != 7 {
            assert_eq!(e.get(c, &world), Some(&(i as i32)));
        }
    }
    assert_eq!(a.get(c, &world), Some(&100));
    assert_eq!(b.get(c, &world), Some(&101));
}

#[test]
fn component_reads_and_changes_one_value_before_all_are_added() {
    let world = &mut World::<X, Value>::new();
    let position = Component::new::<Position, Value>(None, world);
    let velocity = Component::new::<Velocity, Value>(Some(position), world);
    let entity = Entity::new(velocity, world);
    entity.add(velocity, world, Value::Velocity(Velocity { x: 4 }));
    assert_eq!(velocity_x(entity.component(velocity, world)), 4);
    match entity.component_mut(velocity, world).unwrap() {
        Value::Velocity(v) => v.x = 5,
        _ => panic!("no velocity"),
    }
    assert_eq!(velocity_x(entity.component(velocity, world)), 5);
    entity.add(position, world, Value::Position(Position { x: 6 }));
    assert_eq!(velocity_x(entity.get(velocity, world)), 5);
    assert_eq!(position_x(entity.get(position, world)), 6);
}
