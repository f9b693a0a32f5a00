use ooecs::{Component, Entity, List, World};

struct G;

fn next(e: Entity<G>, world: &World<G, List<G>>, c: Component<G>) -> Entity<G> {
    e.get(c, world).unwrap().next
}

fn walk(head: Entity<G>, world: &World<G, List<G>>, c: Component<G>) -> Vec<Entity<G>> {
    let mut v = vec![head];
    let mut e = next(head, world, c);
    while e != head {
        v.push(e);
        e = next(e, world, c);
    }
    v
}

fn setup(n: usize) -> (World<G, List<G>>, Component<G>, Vec<Entity<G>>) {
    let mut world = World::<G, List<G>>::new();
    let c = Component::new::<List<G>, List<G>>(None, &mut world);
    let mut v = Vec::new();
    for _ in 0..n {
        v.push(Entity::new(c, &mut world));
    }
    (world, c, v)
}

#[test]
fn insert_into_empty_list_makes_a_cycle_of_one() {
    let (mut world, c, e) = setup(1);
    let mut head = None;
    List::insert(&mut head, e[0], &mut world, c);
    assert!(head == Some(e[0]));
    assert!(next(e[0], &world, c) == e[0]);
}

#[test]
fn insert_puts_node_in_front() {
    let (mut world, c, e) = setup(3);
    let mut head = None;
    List::insert(&mut head, e[0], &mut world, c);
    List::insert(&mut head, e[1], &mut world, c);
    List::insert(&mut head, e[2], &mut world, c);
    assert!(head == Some(e[2]));
    assert!(walk(e[2], &world, c) == vec![e[2], e[1], e[0]]);
}

#[test]
fn remove_middle_node_relinks_neighbours() {
    let (mut world, c, e) = setup(3);
    let mut head = None;
    for i in 0..3 {
        List::insert(&mut head, e[i], &mut world, c);
    }
    List::remove(&mut head, e[1], &mut world, c);
    assert!(head == Some(e[2]));
    assert!(walk(e[2], &world, c) == vec![e[2], e[0]]);
}

#[test]
fn remove_head_moves_head_to_next() {
    let (mut world, c, e) = setup(3);
    let mut head = None;
    for i in 0..3 {
        List::insert(&mut head, e[i], &mut world, c);
    }
    List::remove(&mut head, e[2], &mut world, c);
    assert!(head == Some(e[1]));
    assert!(walk(e[1], &world, c) == vec![e[1], e[0]]);
}

#[test]
fn remove_last_node_empties_list() {
    let (mut world, c, e) = setup(1);
    let mut head = None;
    List::insert(&mut head, e[0], &mut world, c);
    List::remove(&mut head, e[0], &mut world, c);
    assert!(head.is_none());
    // The node can join a list again.
    List::insert(&mut head, e[0], &mut world, c);
    assert!(head == Some(e[0]));
}

#[test]
fn insert_then_remove_restores_list() {
    let (mut world, c, e) = setup(4);
    let mut head = None;
    for i in 0..3 {
        List::insert(&mut head, e[i], &mut world, c);
    }
    let before = walk(head.unwrap(), &world, c);
    List::insert(&mut head, e[3], &mut world, c);
    List::remove(&mut head, e[3], &mut world, c);
    assert!(head == Some(e[2]));
    assert!(walk(head.unwrap(), &world, c) == before);
}

#[test]
fn list_works_while_other_components_have_no_value() {
    let mut world = World::<G, List<G>>::new();
    let base = Component::new::<u32, List<G>>(None, &mut world);
    let c = Component::new::<List<G>, List<G>>(Some(base), &mut world);
    let a = Entity::new(c, &mut world);
    let b = Entity::new(c, &mut world);
    let mut head = None;
    List::insert(&mut head, a, &mut world, c);
    List::insert(&mut head, b, &mut world, c);
    assert!(b.component(c, &world).unwrap().next == a);
    assert!(a.component(c, &world).unwrap().next == b);
    List::remove(&mut head, b, &mut world, c);
    assert!(head == Some(a));
    assert!(a.component(c, &world).unwrap().next == a);
}
