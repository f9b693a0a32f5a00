use ooecs::{Component, Entity, Tree, World};

struct G;

fn tree_of(e: Entity<G>, world: &World<G, Tree<G>>, c: Component<G>) -> (Option<Entity<G>>, Option<Entity<G>>, Entity<G>) {
    let t = e.get(c, world).unwrap();
    (t.parent, t.last_child, t.next_sibling)
}

fn setup(n: usize) -> (World<G, Tree<G>>, Component<G>, Vec<Entity<G>>) {
    let mut world = World::<G, Tree<G>>::new();
    let c = Component::new::<Tree<G>, Tree<G>>(None, &mut world);
    let mut v = Vec::new();
    for _ in 0..n {
        let e = Entity::new(c, &mut world);
        Tree::init(e, &mut world, c);
        v.push(e);
    }
    (world, c, v)
}

fn children(p: Entity<G>, world: &World<G, Tree<G>>, c: Component<G>) -> Vec<Entity<G>> {
    let mut v = Vec::new();
    if let Some(last) = tree_of(p, world, c).1 {
        let mut e = tree_of(last, world, c).2;
        loop {
            v.push(e);
            if e == last {
                break;
            }
            e = tree_of(e, world, c).2;
        }
    }
    v
}

#[test]
fn init_makes_detached_node() {
    let (world, c, e) = setup(1);
    let (parent, last, next) = tree_of(e[0], &world, c);
    assert!(parent.is_none());
    assert!(last.is_none());
    assert!(next == e[0]);
}

#[test]
fn attach_last_appends_children() {
    let (mut world, c, e) = setup(4);
    Tree::attach_last(e[0], e[1], &mut world, c);
    Tree::attach_last(e[0], e[2], &mut world, c);
    Tree::attach_last(e[0], e[3], &mut world, c);
    assert!(children(e[0], &world, c) == vec![e[1], e[2], e[3]]);
    assert!(tree_of(e[0], &world, c).1 == Some(e[3]));
    for i in 1..4 {
        assert!(tree_of(e[i], &world, c).0 == Some(e[0]));
    }
}

#[test]
fn attach_first_prepends_children() {
    let (mut world, c, e) = setup(4);
    Tree::attach_first(e[0], e[1], &mut world, c);
    Tree::attach_first(e[0], e[2], &mut world, c);
    Tree::attach_first(e[0], e[3], &mut world, c);
    assert!(children(e[0], &world, c) == vec![e[3], e[2], e[1]]);
    assert!(tree_of(e[0], &world, c).1 == Some(e[1]));
}

#[test]
fn attach_after_inserts_after_sibling() {
    let (mut world, c, e) = setup(5);
    Tree::attach_last(e[0], e[1], &mut world, c);
    Tree::attach_last(e[0], e[2], &mut world, c);
    Tree::attach_after(e[0], e[1], e[3], &mut world, c);
    assert!(children(e[0], &world, c) == vec![e[1], e[3], e[2]]);
    assert!(tree_of(e[0], &world, c).1 == Some(e[2]));
    Tree::attach_after(e[0], e[2], e[4], &mut world, c);
    assert!(children(e[0], &world, c) == vec![e[1], e[3], e[2], e[4]]);
    assert!(tree_of(e[0], &world, c).1 == Some(e[4]));
}

#[test]
fn detach_only_child_restores_nodes() {
    let (mut world, c, e) = setup(2);
    Tree::attach_last(e[0], e[1], &mut world, c);
    Tree::detach(e[1], &mut world, c);
    assert!(children(e[0], &world, c).is_empty());
    let (parent, last, next) = tree_of(e[1], &world, c);
    assert!(parent.is_none());
    assert!(last.is_none());
    assert!(next == e[1]);
    let (parent, last, next) = tree_of(e[0], &world, c);
    assert!(parent.is_none());
    assert!(last.is_none());
    assert!(next == e[0]);
}

#[test]
fn destroy_takes_tree_values_of_whole_subtree() {
    let (mut world, c, e) = setup(5);
    Tree::attach_last(e[0], e[1], &mut world, c);
    Tree::attach_last(e[0], e[2], &mut world, c);
    Tree::attach_last(e[1], e[3], &mut world, c);
    Tree::destroy(e[0], &mut world, c);
    // Every entity of the tree can be given a fresh tree value again.
    for i in 0..4 {
        Tree::init(e[i], &mut world, c);
        let (parent, last, next) = tree_of(e[i], &world, c);
        assert!(parent.is_none() && last.is_none() && next == e[i]);
    }
    // The entity outside the tree kept its value.
    assert!(tree_of(e[4], &world, c).2 == e[4]);
}

#[test]
fn attach_subtree_below_other_tree_then_destroy() {
    let (mut world, c, e) = setup(5);
    Tree::attach_last(e[0], e[1], &mut world, c);
    Tree::attach_last(e[2], e[3], &mut world, c);
    Tree::attach_first(e[2], e[4], &mut world, c);
    // The tree rooted at e[2] goes below e[1].
    Tree::attach_last(e[1], e[2], &mut world, c);
    assert!(children(e[1], &world, c) == vec![e[2]]);
    assert!(children(e[2], &world, c) == vec![e[4], e[3]]);
    assert!(tree_of(e[2], &world, c).0 == Some(e[1]));
    Tree::destroy(e[0], &mut world, c);
    for i in 0..5 {
        Tree::init(e[i], &mut world, c);
    }
    assert!(children(e[0], &world, c).is_empty());
}
