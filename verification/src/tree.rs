//! Trees of entities, kept in a tree component.
//!
//! Every entity of a tree holds a [`Tree`] value: its parent, its last
//! child, and its next sibling. The children of an entity form a circular
//! list through their next siblings, in which the next sibling of the last
//! child is the first child. An entity without a parent is its own next
//! sibling.
use vstd::prelude::*;
use crate::world::{World, WorldView, Component, Entity};
use crate::list::{cycle_of, succ, lemma_cycle_unique};

verus! {

/// The tree component of an entity.
#[verifier::reject_recursive_types(E)]
pub struct Tree<E: ?Sized + 'static> {
    pub parent: Option<Entity<E>>,
    pub last_child: Option<Entity<E>>,
    pub next_sibling: Entity<E>,
}

/// Entity `e` is alive, and its tree component `c` belongs to its
/// archetype and has a value.
pub open spec fn node_ok<E: ?Sized>(w: WorldView<Tree<E>>, c: usize, e: (usize, usize)) -> bool {
    &&& w.contains(e)
    &&& w.member(c, w.archetype(e))
    &&& w.value(e, c) is Some
}

/// The tree value of entity `e`.
pub open spec fn tree<E: ?Sized>(w: WorldView<Tree<E>>, c: usize, e: (usize, usize)) -> Tree<E> {
    w.value(e, c)->Some_0
}

/// Entity `e` has no parent and is its own next sibling.
pub open spec fn detached<E: ?Sized>(w: WorldView<Tree<E>>, c: usize, e: (usize, usize)) -> bool {
    &&& tree(w, c, e).parent is None
    &&& tree(w, c, e).next_sibling@ == e
}

/// The world after the tree value of `e` became `t`.
pub open spec fn with_tree<E: ?Sized>(w: WorldView<Tree<E>>, c: usize, e: (usize, usize), t: Tree<E>) -> WorldView<
    Tree<E>,
> {
    w.set_value(e, c, Some(t))
}

/// The world after `node` got the parent `parent` and the next sibling
/// `next`.
pub open spec fn with_parent_next<E: ?Sized>(
    w: WorldView<Tree<E>>,
    c: usize,
    node: (usize, usize),
    parent: Entity<E>,
    next: Entity<E>,
) -> WorldView<Tree<E>> {
    with_tree(w, c, node, Tree { parent: Some(parent), next_sibling: next, ..tree(w, c, node) })
}

/// The world after `e` got the next sibling `next`.
pub open spec fn with_next<E: ?Sized>(w: WorldView<Tree<E>>, c: usize, e: (usize, usize), next: Entity<E>) -> WorldView<
    Tree<E>,
> {
    with_tree(w, c, e, Tree { next_sibling: next, ..tree(w, c, e) })
}

/// The world after `e` got the last child `last`.
pub open spec fn with_last_child<E: ?Sized>(
    w: WorldView<Tree<E>>,
    c: usize,
    e: (usize, usize),
    last: Option<Entity<E>>,
) -> WorldView<Tree<E>> {
    with_tree(w, c, e, Tree { last_child: last, ..tree(w, c, e) })
}

/// The world after `node` was linked in after the child `last` of
/// `parent`: `last` names `node` as its next sibling and `node` names the
/// former next sibling of `last`.
pub open spec fn linked_after<E: ?Sized>(
    w: WorldView<Tree<E>>,
    c: usize,
    parent: Entity<E>,
    last: (usize, usize),
    node: Entity<E>,
) -> WorldView<Tree<E>> {
    let w1 = with_next(w, c, last, node);
    with_parent_next(w1, c, node@, parent, tree(w, c, last).next_sibling)
}

/// The world after `node` became the first child of `parent`.
pub open spec fn attached_first<E: ?Sized>(
    w: WorldView<Tree<E>>,
    c: usize,
    parent: Entity<E>,
    node: Entity<E>,
) -> WorldView<Tree<E>> {
    match tree(w, c, parent@).last_child {
        Some(l) => linked_after(w, c, parent, l@, node),
        None => {
            let w1 = with_parent_next(w, c, node@, parent, tree(w, c, node@).next_sibling);
            with_last_child(w1, c, parent@, Some(node))
        },
    }
}

/// The world after `node` became the last child of `parent`.
pub open spec fn attached_last<E: ?Sized>(
    w: WorldView<Tree<E>>,
    c: usize,
    parent: Entity<E>,
    node: Entity<E>,
) -> WorldView<Tree<E>> {
    let w1 = match tree(w, c, parent@).last_child {
        Some(l) => linked_after(w, c, parent, l@, node),
        None => with_parent_next(w, c, node@, parent, tree(w, c, node@).next_sibling),
    };
    with_last_child(w1, c, parent@, Some(node))
}

/// The world after `node` became the child of `parent` that follows `prev`.
pub open spec fn attached_after<E: ?Sized>(
    w: WorldView<Tree<E>>,
    c: usize,
    parent: Entity<E>,
    prev: Entity<E>,
    node: Entity<E>,
) -> WorldView<Tree<E>> {
    let w1 = linked_after(w, c, parent, prev@, node);
    if tree(w1, c, parent@).last_child == Some(prev) {
        with_last_child(w1, c, parent@, Some(node))
    } else {
        w1
    }
}

/// The world after the only child `node` of its parent was detached.
pub open spec fn detached_only_child<E: ?Sized>(w: WorldView<Tree<E>>, c: usize, node: Entity<E>) -> WorldView<
    Tree<E>,
> {
    let parent = tree(w, c, node@).parent->Some_0;
    let w1 = with_tree(w, c, node@, Tree { parent: None, next_sibling: node, ..tree(w, c, node@) });
    with_last_child(w1, c, parent@, None)
}


/// Entity `e` has a tree value that names `p` as its parent.
pub open spec fn child_of<E: ?Sized>(w: WorldView<Tree<E>>, c: usize, e: (usize, usize), p: (usize, usize)) -> bool {
    &&& node_ok(w, c, e)
    &&& (tree(w, c, e).parent matches Some(q) && q@ == p)
}

/// The children of `p` are the entities `s`, in order: `p`'s last child is
/// the last of them, each names `p` as its parent, and their next siblings
/// run through `s` and from the last back to the first.
pub open spec fn family_ok<E: ?Sized>(w: WorldView<Tree<E>>, c: usize, p: (usize, usize), s: Seq<(usize, usize)>) -> bool {
    &&& node_ok(w, c, p)
    &&& (tree(w, c, p).last_child is None <==> s.len() == 0)
    &&& s.len() > 0 ==> {
        &&& tree(w, c, p).last_child->Some_0@ == s.last()
        &&& cycle_of(
            |e: (usize, usize)| child_of(w, c, e, p),
            |e: (usize, usize)| tree(w, c, e).next_sibling@,
            s,
        )
    }
}

/// `sub` is the subtree of `node`: `fam` gives the children of each of its
/// entities and `anc` the path from `node` down to each of them.
pub open spec fn subtree<E: ?Sized>(
    w: WorldView<Tree<E>>,
    c: usize,
    fam: Map<(usize, usize), Seq<(usize, usize)>>,
    anc: Map<(usize, usize), Seq<(usize, usize)>>,
    sub: Set<(usize, usize)>,
    node: (usize, usize),
) -> bool {
    &&& sub.finite()
    &&& sub.contains(node)
    &&& anc.contains_key(node)
    &&& anc[node] == seq![node]
    &&& forall|x: (usize, usize)|
        #[trigger] sub.contains(x) ==> {
            &&& fam.contains_key(x)
            &&& anc.contains_key(x)
            &&& family_ok(w, c, x, fam[x])
            &&& forall|i: int|
                0 <= i < fam[x].len() ==> {
                    &&& sub.contains(#[trigger] fam[x][i])
                    &&& anc.contains_key(fam[x][i])
                    &&& anc[fam[x][i]] == anc[x].push(fam[x][i])
                }
            &&& x != node ==> {
                &&& anc[x].len() >= 2
                &&& anc[x][0] == node
                &&& sub.contains(anc[x][anc[x].len() - 2])
                &&& fam[anc[x][anc[x].len() - 2]].contains(x)
            }
        }
}

/// The entities of `sub` below the child `ch` of the root.
pub open spec fn branch(
    anc: Map<(usize, usize), Seq<(usize, usize)>>,
    sub: Set<(usize, usize)>,
    ch: (usize, usize),
) -> Set<(usize, usize)> {
    sub.filter(|x: (usize, usize)| anc[x].len() >= 2 && anc[x][1] == ch)
}

/// The paths from `ch` down to the entities of its branch.
pub open spec fn branch_paths(
    anc: Map<(usize, usize), Seq<(usize, usize)>>,
    sub: Set<(usize, usize)>,
    ch: (usize, usize),
) -> Map<(usize, usize), Seq<(usize, usize)>> {
    Map::new(|x: (usize, usize)| branch(anc, sub, ch).contains(x), |x: (usize, usize)| anc[x].drop_first())
}

impl<E: ?Sized> Tree<E> {
    /// The tree value of `e`.
    fn read(e: Entity<E>, world: &World<E, Tree<E>>, c: Component<E>) -> (t: &Tree<E>)
        requires
            world.wf(),
            world@.is_component(c@),
            node_ok(world@, c@, e@),
        ensures
            *t == tree(world@, c@, e@),
    {
        e.component(c, world).unwrap()
    }

    /// Replaces the tree value of `e` with `t`.
    fn write(e: Entity<E>, world: &mut World<E, Tree<E>>, c: Component<E>, t: Tree<E>)
        requires
            old(world).wf(),
            old(world)@.is_component(c@),
            node_ok(old(world)@, c@, e@),
        ensures
            final(world).wf(),
            final(world).storage_kept(old(world)),
            final(world)@ == with_tree(old(world)@, c@, e@, t),
            forall|f: (usize, usize)| #[trigger] node_ok(old(world)@, c@, f) ==> node_ok(final(world)@, c@, f),
    {
        proof {
            world.lemma_view_wf();
            lemma_write_keeps_nodes(world@, c@, e@, t);
        }
        match e.component_mut(c, world) {
            Some(r) => {
                *r = t;
            },
            None => {},
        }
    }

    /// Gives `node` a tree value of its own: no parent, no children, and
    /// itself as its next sibling.
    pub fn init(node: Entity<E>, world: &mut World<E, Tree<E>>, tree_component: Component<E>)
        requires
            old(world).wf(),
            old(world)@.is_component(tree_component@),
            old(world)@.contains(node@),
            old(world)@.member(tree_component@, old(world)@.archetype(node@)),
            old(world)@.value(node@, tree_component@) is None,
        ensures
            final(world).wf(),
            final(world).storage_kept(old(world)),
            final(world)@ == with_tree(
                old(world)@,
                tree_component@,
                node@,
                Tree { parent: None, last_child: None, next_sibling: node },
            ),
    {
        node.add(tree_component, world, Tree { parent: None, last_child: None, next_sibling: node });
    }

    /// Makes the detached `node` the first child of `parent`.
    pub fn attach_first(
        parent: Entity<E>,
        node: Entity<E>,
        world: &mut World<E, Tree<E>>,
        tree_component: Component<E>,
    )
        requires
            old(world).wf(),
            old(world)@.is_component(tree_component@),
            node_ok(old(world)@, tree_component@, node@),
            detached(old(world)@, tree_component@, node@),
            node_ok(old(world)@, tree_component@, parent@),
            tree(old(world)@, tree_component@, parent@).last_child matches Some(l) ==> node_ok(
                old(world)@,
                tree_component@,
                l@,
            ),
        ensures
            final(world).wf(),
            final(world).storage_kept(old(world)),
            final(world)@ == attached_first(old(world)@, tree_component@, parent, node),
    {
        let c = tree_component;
        let ghost w0 = world@;
        let parent_last_child = Self::read(parent, world, c).last_child;
        match parent_last_child {
            Some(last_child) => {
                Self::link_after(parent, last_child, node, world, c);
            },
            None => {
                let t = Self::read(node, world, c);
                let next = t.next_sibling;
                let last = t.last_child;
                Self::write(node, world, c, Tree { parent: Some(parent), last_child: last, next_sibling: next });
                let t = Self::read(parent, world, c);
                let p_parent = t.parent;
                let p_next = t.next_sibling;
                Self::write(parent, world, c, Tree { parent: p_parent, last_child: Some(node), next_sibling: p_next });
            },
        }
    }

    /// Makes the detached `node` the last child of `parent`.
    pub fn attach_last(
        parent: Entity<E>,
        node: Entity<E>,
        world: &mut World<E, Tree<E>>,
        tree_component: Component<E>,
    )
        requires
            old(world).wf(),
            old(world)@.is_component(tree_component@),
            node_ok(old(world)@, tree_component@, node@),
            detached(old(world)@, tree_component@, node@),
            node_ok(old(world)@, tree_component@, parent@),
            tree(old(world)@, tree_component@, parent@).last_child matches Some(l) ==> node_ok(
                old(world)@,
                tree_component@,
                l@,
            ),
        ensures
            final(world).wf(),
            final(world).storage_kept(old(world)),
            final(world)@ == attached_last(old(world)@, tree_component@, parent, node),
    {
        let c = tree_component;
        let parent_last_child = Self::read(parent, world, c).last_child;
        match parent_last_child {
            Some(last_child) => {
                Self::link_after(parent, last_child, node, world, c);
            },
            None => {
                let t = Self::read(node, world, c);
                let next = t.next_sibling;
                let last = t.last_child;
                Self::write(node, world, c, Tree { parent: Some(parent), last_child: last, next_sibling: next });
            },
        }
        let t = Self::read(parent, world, c);
        let p_parent = t.parent;
        let p_next = t.next_sibling;
        Self::write(parent, world, c, Tree { parent: p_parent, last_child: Some(node), next_sibling: p_next });
    }

    /// Makes the detached `node` the child of `parent` that follows its
    /// child `prev`.
    pub fn attach_after(
        parent: Entity<E>,
        prev: Entity<E>,
        node: Entity<E>,
        world: &mut World<E, Tree<E>>,
        tree_component: Component<E>,
    )
        requires
            old(world).wf(),
            old(world)@.is_component(tree_component@),
            node_ok(old(world)@, tree_component@, node@),
            detached(old(world)@, tree_component@, node@),
            node_ok(old(world)@, tree_component@, parent@),
            node_ok(old(world)@, tree_component@, prev@),
        ensures
            final(world).wf(),
            final(world).storage_kept(old(world)),
            final(world)@ == attached_after(old(world)@, tree_component@, parent, prev, node),
    {
        let c = tree_component;
        Self::link_after(parent, prev, node, world, c);
        let t = Self::read(parent, world, c);
        proof {
            Entity::lemma_view_injective(t.last_child->Some_0, prev);
        }
        if t.last_child == Some(prev) {
            let p_parent = t.parent;
            let p_next = t.next_sibling;
            Self::write(parent, world, c, Tree { parent: p_parent, last_child: Some(node), next_sibling: p_next });
        }
    }

    /// Detaches `node` from its parent: `node` loses its parent and stays
    /// its own next sibling, and the parent is left without children.
    ///
    /// `node` must have a parent and be its only child (its own next
    /// sibling).
    pub fn detach(node: Entity<E>, world: &mut World<E, Tree<E>>, tree_component: Component<E>)
        requires
            old(world).wf(),
            old(world)@.is_component(tree_component@),
            node_ok(old(world)@, tree_component@, node@),
            tree(old(world)@, tree_component@, node@).parent matches Some(p) && node_ok(
                old(world)@,
                tree_component@,
                p@,
            ),
            tree(old(world)@, tree_component@, node@).next_sibling@ == node@,
        ensures
            final(world).wf(),
            final(world).storage_kept(old(world)),
            final(world)@ == detached_only_child(old(world)@, tree_component@, node),
    {
        let c = tree_component;
        let t = Self::read(node, world, c);
        let parent = t.parent.unwrap();
        let last = t.last_child;
        Self::write(node, world, c, Tree { parent: None, last_child: last, next_sibling: node });
        let t = Self::read(parent, world, c);
        let p_parent = t.parent;
        let p_next = t.next_sibling;
        Self::write(parent, world, c, Tree { parent: p_parent, last_child: None, next_sibling: p_next });
    }

    /// Takes the tree values out of the detached `node` and of every entity
    /// below it.
    pub fn destroy(node: Entity<E>, world: &mut World<E, Tree<E>>, tree_component: Component<E>)
        requires
            old(world).wf(),
            old(world)@.is_component(tree_component@),
            exists|fam: Map<(usize, usize), Seq<(usize, usize)>>, anc: Map<(usize, usize), Seq<(usize, usize)>>, sub: Set<(usize, usize)>|
                subtree(old(world)@, tree_component@, fam, anc, sub, node@),
            detached(old(world)@, tree_component@, node@),
        ensures
            final(world).wf(),
            final(world).storage_kept(old(world)),
            forall|fam: Map<(usize, usize), Seq<(usize, usize)>>, anc: Map<(usize, usize), Seq<(usize, usize)>>, sub: Set<(usize, usize)>|
                #[trigger] subtree(old(world)@, tree_component@, fam, anc, sub, node@) ==> final(world)@
                    == old(world)@.without_values(tree_component@, sub),
    {
        let ghost w0 = world@;
        let ghost (fam, anc, sub) = choose|fam: Map<(usize, usize), Seq<(usize, usize)>>, anc: Map<(usize, usize), Seq<(usize, usize)>>, sub: Set<(usize, usize)>|
            subtree(world@, tree_component@, fam, anc, sub, node@);
        let _ = Self::destroy_raw(node, world, tree_component, Ghost(fam), Ghost(anc), Ghost(sub));
        proof {
            assert forall|fam2: Map<(usize, usize), Seq<(usize, usize)>>, anc2: Map<(usize, usize), Seq<(usize, usize)>>, sub2: Set<(usize, usize)>|
                #[trigger] subtree(w0, tree_component@, fam2, anc2, sub2, node@) implies world@ == w0.without_values(tree_component@, sub2) by {
                lemma_subtree_unique(w0, tree_component@, fam, anc, sub, fam2, anc2, sub2, node@);
            }
        }
    }

    /// Takes the tree values out of `node` and of every entity below it;
    /// returns the next sibling that `node` had.
    fn destroy_raw(
        node: Entity<E>,
        world: &mut World<E, Tree<E>>,
        c: Component<E>,
        Ghost(fam): Ghost<Map<(usize, usize), Seq<(usize, usize)>>>,
        Ghost(anc): Ghost<Map<(usize, usize), Seq<(usize, usize)>>>,
        Ghost(sub): Ghost<Set<(usize, usize)>>,
    ) -> (next: Entity<E>)
        requires
            old(world).wf(),
            old(world)@.is_component(c@),
            subtree(old(world)@, c@, fam, anc, sub, node@),
        ensures
            final(world).wf(),
            final(world).storage_kept(old(world)),
            final(world)@ == old(world)@.without_values(c@, sub),
            next == tree(old(world)@, c@, node@).next_sibling,
        decreases sub.len(),
    {
        let ghost w0 = world@;
        proof {
            world.lemma_view_wf();
            assert(sub.contains(node@));
        }
        let t = node.remove_component(c, world);
        proof {
            w0.lemma_without_values(c@, node@);
        }
        if let Some(last_child) = t.last_child {
            let ghost s = fam[node@];
            let ghost n = s.len() as int;
            let mut child = last_child;
            let ghost mut j: int = 0;
            proof {
                assert(s.len() > 0);
                assert(child@ == s[n - 1]);
            }
            proof {
                assert(visited(anc, sub, node@, s, 0) =~= set![node@]);
            }
            loop
                invariant_except_break
                    j < n,
                    child@ == s[visit(n, j)],
                invariant
                    world.wf(),
                    world@.is_component(c@),
                    w0.wf(),
                    w0.is_component(c@),
                    subtree(w0, c@, fam, anc, sub, node@),
                    s == fam[node@],
                    n == s.len(),
                    n > 0,
                    last_child@ == s[n - 1],
                    0 <= j <= n,
                    world@ == w0.without_values(c@, visited(anc, sub, node@, s, j)),
                    world.storage_kept(old(world)),
                ensures
                    j == n,
                decreases n - j,
            {
                proof {
                    lemma_branch_subtree(w0, world@, c@, fam, anc, sub, node@, s, j);
                }
                let ghost ch = s[visit(n, j)];
                let next = Self::destroy_raw(
                    child,
                    world,
                    c,
                    Ghost(fam),
                    Ghost(branch_paths(anc, sub, ch)),
                    Ghost(branch(anc, sub, ch)),
                );
                proof {
                    lemma_visit_step(w0, c@, fam, anc, sub, node@, s, j);
                }
                child = next;
                proof {
                    Entity::lemma_view_injective(child, last_child);
                    j = j + 1;
                }
                if child == last_child {
                    proof {
                        lemma_visit_done(s, j);
                    }
                    break;
                }
            }
            proof {
                lemma_visited_all(w0, c@, fam, anc, sub, node@, s);
            }
        } else {
            proof {
                lemma_leaf_subtree(w0, c@, fam, anc, sub, node@);
            }
        }
        t.next_sibling
    }

    /// Links `node` in after `prev` among the children of `parent`.
    fn link_after(
        parent: Entity<E>,
        prev: Entity<E>,
        node: Entity<E>,
        world: &mut World<E, Tree<E>>,
        c: Component<E>,
    )
        requires
            old(world).wf(),
            old(world)@.is_component(c@),
            node_ok(old(world)@, c@, node@),
            node_ok(old(world)@, c@, prev@),
        ensures
            final(world).wf(),
            final(world).storage_kept(old(world)),
            final(world)@ == linked_after(old(world)@, c@, parent, prev@, node),
            forall|f: (usize, usize)| #[trigger] node_ok(old(world)@, c@, f) ==> node_ok(final(world)@, c@, f),
    {
        let t = Self::read(prev, world, c);
        let next = t.next_sibling;
        let p_parent = t.parent;
        let p_last = t.last_child;
        Self::write(prev, world, c, Tree { parent: p_parent, last_child: p_last, next_sibling: node });
        let t = Self::read(node, world, c);
        let n_last = t.last_child;
        Self::write(node, world, c, Tree { parent: Some(parent), last_child: n_last, next_sibling: next });
    }
}

/// Writing a tree value keeps every entity with a tree value such an
/// entity.
proof fn lemma_write_keeps_nodes<E: ?Sized>(w: WorldView<Tree<E>>, c: usize, e: (usize, usize), t: Tree<E>)
    requires
        w.wf(),
        w.is_component(c),
        node_ok(w, c, e),
    ensures
        with_tree(w, c, e, t).wf(),
        forall|f: (usize, usize)| #[trigger] node_ok(w, c, f) ==> node_ok(with_tree(w, c, e, t), c, f),
{
    w.lemma_set_value(e, c, Some(t));
    let w1 = with_tree(w, c, e, t);
    assert forall|f: (usize, usize)| #[trigger] node_ok(w, c, f) implies node_ok(w1, c, f) by {}
}

/// The position of the child that the destruction of a node with `n`
/// children visits `j`-th: the last child first, then the others in order.
pub open spec fn visit(n: int, j: int) -> int {
    if j == 0 {
        n - 1
    } else {
        j - 1
    }
}

/// How many children are visited before the child at position `p`.
pub open spec fn visit_rank(n: int, p: int) -> int {
    if p == n - 1 {
        0
    } else {
        p + 1
    }
}

/// The entities of the subtree `sub` of `node` that are gone once `j` of
/// the children `s` of `node` were visited: `node` and the branches of the
/// visited children.
pub open spec fn visited(
    anc: Map<(usize, usize), Seq<(usize, usize)>>,
    sub: Set<(usize, usize)>,
    node: (usize, usize),
    s: Seq<(usize, usize)>,
    j: int,
) -> Set<(usize, usize)> {
    sub.filter(
        |x: (usize, usize)|
            x == node || (anc[x].len() >= 2 && s.contains(anc[x][1]) && visit_rank(
                s.len() as int,
                s.index_of(anc[x][1]),
            ) < j),
    )
}

/// Cycles over the same elements with predicates and successors that agree
/// on them are the same cycles.
proof fn lemma_cycle_congruent(
    ok1: spec_fn((usize, usize)) -> bool,
    nx1: spec_fn((usize, usize)) -> (usize, usize),
    ok2: spec_fn((usize, usize)) -> bool,
    nx2: spec_fn((usize, usize)) -> (usize, usize),
    s: Seq<(usize, usize)>,
)
    requires
        cycle_of(ok1, nx1, s),
        forall|i: int| 0 <= i < s.len() ==> ok1(#[trigger] s[i]) == ok2(s[i]) && nx1(s[i]) == nx2(s[i]),
    ensures
        cycle_of(ok2, nx2, s),
{
    assert forall|i: int| #![trigger s[i]] 0 <= i < s.len() implies ok2(s[i]) && nx2(s[i]) == succ(s, i) by {
        assert(ok1(s[i]) && nx1(s[i]) == succ(s, i));
    }
}

/// Whether `w1` and `w2` have the same layouts and agree on whether each
/// entity of `d` is alive and on its values.
pub open spec fn agree_on<E: ?Sized>(w1: WorldView<Tree<E>>, w2: WorldView<Tree<E>>, d: Set<(usize, usize)>) -> bool {
    &&& w1.layouts == w2.layouts
    &&& forall|x: (usize, usize)|
        #[trigger] d.contains(x) ==> w1.entities.contains_key(x) == w2.entities.contains_key(x)
            && w1.entities[x] == w2.entities[x]
}

/// A family whose entities the world did not change is still a family.
proof fn lemma_family_frame<E: ?Sized>(
    w1: WorldView<Tree<E>>,
    w2: WorldView<Tree<E>>,
    c: usize,
    p: (usize, usize),
    s: Seq<(usize, usize)>,
    d: Set<(usize, usize)>,
)
    requires
        family_ok(w1, c, p, s),
        agree_on(w1, w2, d),
        d.contains(p),
        forall|i: int| 0 <= i < s.len() ==> d.contains(#[trigger] s[i]),
    ensures
        family_ok(w2, c, p, s),
{
    assert(d.contains(p));
    if s.len() > 0 {
        assert forall|i: int| 0 <= i < s.len() implies child_of(w1, c, #[trigger] s[i], p) == child_of(w2, c, s[i], p)
            && tree(w1, c, s[i]).next_sibling@ == tree(w2, c, s[i]).next_sibling@ by {
            assert(d.contains(s[i]));
        }
        lemma_cycle_congruent(
            |e: (usize, usize)| child_of(w1, c, e, p),
            |e: (usize, usize)| tree(w1, c, e).next_sibling@,
            |e: (usize, usize)| child_of(w2, c, e, p),
            |e: (usize, usize)| tree(w2, c, e).next_sibling@,
            s,
        );
    }
}

/// The path to any entity of a subtree other than its root starts with the
/// root and one of the root's children.
proof fn lemma_path_head<E: ?Sized>(
    w: WorldView<Tree<E>>,
    c: usize,
    fam: Map<(usize, usize), Seq<(usize, usize)>>,
    anc: Map<(usize, usize), Seq<(usize, usize)>>,
    sub: Set<(usize, usize)>,
    node: (usize, usize),
    x: (usize, usize),
)
    requires
        subtree(w, c, fam, anc, sub, node),
        sub.contains(x),
        x != node,
    ensures
        anc[x].len() >= 2,
        fam[node].contains(anc[x][1]),
        anc[x].len() == 2 ==> anc[x][1] == x,
    decreases anc[x].len(),
{
    let p = anc[x][anc[x].len() - 2];
    assert(sub.contains(p));
    let i = fam[p].index_of(x);
    assert(fam[p][i] == x);
    assert(anc[x] == anc[p].push(x));
    if p == node {
        assert(anc[x] == seq![node, x]);
    } else {
        lemma_path_head(w, c, fam, anc, sub, node, p);
        assert(anc[x][1] == anc[p][1]);
    }
}

/// A branch of a subtree is the subtree of the child it hangs from, in any
/// world that agrees with the first one on the branch; and it is smaller
/// than the subtree.
proof fn lemma_branch_subtree<E: ?Sized>(
    w0: WorldView<Tree<E>>,
    w: WorldView<Tree<E>>,
    c: usize,
    fam: Map<(usize, usize), Seq<(usize, usize)>>,
    anc: Map<(usize, usize), Seq<(usize, usize)>>,
    sub: Set<(usize, usize)>,
    node: (usize, usize),
    s: Seq<(usize, usize)>,
    j: int,
)
    requires
        w0.wf(),
        w0.is_component(c),
        subtree(w0, c, fam, anc, sub, node),
        s == fam[node],
        s.len() > 0,
        0 <= j < s.len(),
        w == w0.without_values(c, visited(anc, sub, node, s, j)),
    ensures
        subtree(w, c, fam, branch_paths(anc, sub, s[visit(s.len() as int, j)]), branch(anc, sub, s[visit(s.len() as int, j)]), s[visit(s.len() as int, j)]),
        branch(anc, sub, s[visit(s.len() as int, j)]).len() < sub.len(),
        tree(w, c, s[visit(s.len() as int, j)]) == tree(w0, c, s[visit(s.len() as int, j)]),
{
    let n = s.len() as int;
    let ch = s[visit(n, j)];
    let br = branch(anc, sub, ch);
    let bp = branch_paths(anc, sub, ch);
    let done = visited(anc, sub, node, s, j);
    assert(sub.contains(node));
    assert(family_ok(w0, c, node, s));
    assert(s.no_duplicates());
    // The child is in the subtree, with the path from the root to it.
    assert(sub.contains(s[visit(n, j)]));
    assert(anc[ch] == seq![node].push(ch));
    assert(anc[ch][1] == ch);
    assert(br.contains(ch));
    assert(s.index_of(ch) == visit(n, j)) by {
        assert(s.contains(ch));
    }
    // The branch is untouched in `w`.
    assert(agree_on(w0, w, br)) by {
        assert forall|x: (usize, usize)| #[trigger] br.contains(x) implies w0.entities.contains_key(x)
            == w.entities.contains_key(x) && w0.entities[x] == w.entities[x] by {
            assert(!done.contains(x)) by {
                if x == node {
                    assert(anc[node].len() == 1);
                }
                assert(s.index_of(anc[x][1]) == visit(n, j));
            }
        }
    }
    assert(tree(w, c, ch) == tree(w0, c, ch)) by {
        assert(br.contains(ch));
    }
    // It is finite and smaller than the subtree, which holds the root besides.
    assert(br.subset_of(sub.remove(node))) by {
        assert forall|x: (usize, usize)| br.contains(x) implies sub.remove(node).contains(x) by {
            if x == node {
                assert(anc[node].len() == 1);
            }
        }
    }
    vstd::set_lib::lemma_len_subset(br, sub.remove(node));
    assert(br.finite()) by {
        vstd::set_lib::lemma_len_subset(br, sub.remove(node));
    }
    assert forall|x: (usize, usize)| #[trigger] br.contains(x) implies {
        &&& fam.contains_key(x)
        &&& bp.contains_key(x)
        &&& family_ok(w, c, x, fam[x])
        &&& forall|i: int|
            0 <= i < fam[x].len() ==> {
                &&& br.contains(#[trigger] fam[x][i])
                &&& bp.contains_key(fam[x][i])
                &&& bp[fam[x][i]] == bp[x].push(fam[x][i])
            }
        &&& x != ch ==> {
            &&& bp[x].len() >= 2
            &&& bp[x][0] == ch
            &&& br.contains(bp[x][bp[x].len() - 2])
            &&& fam[bp[x][bp[x].len() - 2]].contains(x)
        }
    } by {
        assert(sub.contains(x));
        assert(anc[x].len() >= 2 && anc[x][1] == ch);
        assert forall|i: int| 0 <= i < fam[x].len() implies {
            &&& br.contains(#[trigger] fam[x][i])
            &&& bp.contains_key(fam[x][i])
            &&& bp[fam[x][i]] == bp[x].push(fam[x][i])
        } by {
            let y = fam[x][i];
            assert(anc[y] == anc[x].push(y));
            assert(anc[y][1] == anc[x][1]);
            assert(br.contains(y));
            assert(anc[y].drop_first() =~= anc[x].drop_first().push(y));
        }
        assert forall|i: int| 0 <= i < fam[x].len() implies br.contains(#[trigger] fam[x][i]) by {
            let y = fam[x][i];
            assert(anc[y] == anc[x].push(y));
            assert(anc[y][1] == anc[x][1]);
        }
        lemma_family_frame(w0, w, c, x, fam[x], br);
        if x != ch {
            assert(x != node) by {
                if x == node {
                    assert(anc[node].len() == 1);
                }
            }
            lemma_path_head(w0, c, fam, anc, sub, node, x);
            assert(anc[x].len() >= 3) by {
                if anc[x].len() == 2 {
                    assert(anc[x][1] == x);
                }
            }
            let p = anc[x][anc[x].len() - 2];
            assert(sub.contains(p));
            let k = fam[p].index_of(x);
            assert(fam[p][k] == x);
            assert(anc[x] == anc[p].push(x));
            assert(anc[p][1] == ch);
            assert(br.contains(p));
            assert(bp[x][bp[x].len() - 2] == p);
        }
    }
    assert(bp[ch] =~= seq![ch]);
}

/// Visiting one more child takes out the values of its branch, and the next
/// sibling of the visited child is the child visited next.
proof fn lemma_visit_step<E: ?Sized>(
    w0: WorldView<Tree<E>>,
    c: usize,
    fam: Map<(usize, usize), Seq<(usize, usize)>>,
    anc: Map<(usize, usize), Seq<(usize, usize)>>,
    sub: Set<(usize, usize)>,
    node: (usize, usize),
    s: Seq<(usize, usize)>,
    j: int,
)
    requires
        subtree(w0, c, fam, anc, sub, node),
        s == fam[node],
        s.len() > 0,
        0 <= j < s.len(),
    ensures
        w0.without_values(c, visited(anc, sub, node, s, j)).without_values(
            c,
            branch(anc, sub, s[visit(s.len() as int, j)]),
        ) == w0.without_values(c, visited(anc, sub, node, s, j + 1)),
        tree(w0, c, s[visit(s.len() as int, j)]).next_sibling@ == s[visit(s.len() as int, j + 1)],
{
    let n = s.len() as int;
    let ch = s[visit(n, j)];
    assert(sub.contains(node));
    assert(family_ok(w0, c, node, s));
    assert(s.no_duplicates());
    assert(s.index_of(ch) == visit(n, j)) by {
        assert(s.contains(ch));
    }
    let d1 = visited(anc, sub, node, s, j).union(branch(anc, sub, ch));
    let d2 = visited(anc, sub, node, s, j + 1);
    assert(d1 =~= d2) by {
        assert forall|x: (usize, usize)| d2.contains(x) implies d1.contains(x) by {
            if x != node && visit_rank(n, s.index_of(anc[x][1])) == j {
                let q = s.index_of(anc[x][1]);
                assert(s[q] == anc[x][1]);
                assert(q == visit(n, j));
            }
        }
    }
    w0.lemma_without_values_union(c, visited(anc, sub, node, s, j), branch(anc, sub, ch));
    let f = |e: (usize, usize)| tree(w0, c, e).next_sibling@;
    assert(f(s[visit(n, j)]) == succ(s, visit(n, j)));
}

/// Among positions `1..=n`, only the `n`-th visits the last child.
proof fn lemma_visit_done(s: Seq<(usize, usize)>, j: int)
    requires
        s.no_duplicates(),
        1 <= j <= s.len(),
        s[visit(s.len() as int, j)] == s[s.len() - 1],
    ensures
        j == s.len(),
{
}

/// Once every child was visited, every entity of the subtree is gone.
proof fn lemma_visited_all<E: ?Sized>(
    w0: WorldView<Tree<E>>,
    c: usize,
    fam: Map<(usize, usize), Seq<(usize, usize)>>,
    anc: Map<(usize, usize), Seq<(usize, usize)>>,
    sub: Set<(usize, usize)>,
    node: (usize, usize),
    s: Seq<(usize, usize)>,
)
    requires
        subtree(w0, c, fam, anc, sub, node),
        s == fam[node],
        s.len() > 0,
    ensures
        visited(anc, sub, node, s, s.len() as int) == sub,
{
    assert forall|x: (usize, usize)| sub.contains(x) implies visited(anc, sub, node, s, s.len() as int).contains(x) by {
        if x != node {
            lemma_path_head(w0, c, fam, anc, sub, node, x);
            let q = s.index_of(anc[x][1]);
        }
    }
    assert(visited(anc, sub, node, s, s.len() as int) =~= sub);
}

/// A node without children is its own subtree.
proof fn lemma_leaf_subtree<E: ?Sized>(
    w0: WorldView<Tree<E>>,
    c: usize,
    fam: Map<(usize, usize), Seq<(usize, usize)>>,
    anc: Map<(usize, usize), Seq<(usize, usize)>>,
    sub: Set<(usize, usize)>,
    node: (usize, usize),
)
    requires
        subtree(w0, c, fam, anc, sub, node),
        tree(w0, c, node).last_child is None,
    ensures
        sub == set![node],
{
    assert(sub.contains(node));
    assert(fam[node].len() == 0);
    assert forall|x: (usize, usize)| sub.contains(x) implies x == node by {
        if x != node {
            lemma_path_head(w0, c, fam, anc, sub, node, x);
        }
    }
    assert(sub =~= set![node]);
}

/// An entity has one family: two lists of its children are the same.
pub proof fn lemma_family_unique<E: ?Sized>(
    w: WorldView<Tree<E>>,
    c: usize,
    p: (usize, usize),
    s1: Seq<(usize, usize)>,
    s2: Seq<(usize, usize)>,
)
    requires
        family_ok(w, c, p, s1),
        family_ok(w, c, p, s2),
    ensures
        s1 == s2,
{
    if s1.len() == 0 {
        assert(s1 =~= s2);
    } else {
        let ok = |e: (usize, usize)| child_of(w, c, e, p);
        let nx = |e: (usize, usize)| tree(w, c, e).next_sibling@;
        assert(nx(s1[s1.len() - 1]) == succ(s1, s1.len() - 1));
        assert(nx(s2[s2.len() - 1]) == succ(s2, s2.len() - 1));
        lemma_cycle_unique(ok, nx, s1, s2);
    }
}

/// Entities of the first subtree are in the second, by the length of the
/// path to them.
proof fn lemma_subtree_included<E: ?Sized>(
    w: WorldView<Tree<E>>,
    c: usize,
    fam1: Map<(usize, usize), Seq<(usize, usize)>>,
    anc1: Map<(usize, usize), Seq<(usize, usize)>>,
    sub1: Set<(usize, usize)>,
    fam2: Map<(usize, usize), Seq<(usize, usize)>>,
    anc2: Map<(usize, usize), Seq<(usize, usize)>>,
    sub2: Set<(usize, usize)>,
    node: (usize, usize),
    x: (usize, usize),
)
    requires
        subtree(w, c, fam1, anc1, sub1, node),
        subtree(w, c, fam2, anc2, sub2, node),
        sub1.contains(x),
    ensures
        sub2.contains(x),
    decreases anc1[x].len(),
{
    if x != node {
        let p = anc1[x][anc1[x].len() - 2];
        assert(sub1.contains(p));
        let k = fam1[p].index_of(x);
        assert(fam1[p][k] == x);
        assert(anc1[x] == anc1[p].push(x));
        lemma_subtree_included(w, c, fam1, anc1, sub1, fam2, anc2, sub2, node, p);
        lemma_family_unique(w, c, p, fam1[p], fam2[p]);
        assert(fam2[p][k] == x);
    }
}

/// An entity has one subtree.
pub proof fn lemma_subtree_unique<E: ?Sized>(
    w: WorldView<Tree<E>>,
    c: usize,
    fam1: Map<(usize, usize), Seq<(usize, usize)>>,
    anc1: Map<(usize, usize), Seq<(usize, usize)>>,
    sub1: Set<(usize, usize)>,
    fam2: Map<(usize, usize), Seq<(usize, usize)>>,
    anc2: Map<(usize, usize), Seq<(usize, usize)>>,
    sub2: Set<(usize, usize)>,
    node: (usize, usize),
)
    requires
        subtree(w, c, fam1, anc1, sub1, node),
        subtree(w, c, fam2, anc2, sub2, node),
    ensures
        sub1 == sub2,
{
    assert forall|x: (usize, usize)| sub1.contains(x) implies sub2.contains(x) by {
        lemma_subtree_included(w, c, fam1, anc1, sub1, fam2, anc2, sub2, node, x);
    }
    assert forall|x: (usize, usize)| sub2.contains(x) implies sub1.contains(x) by {
        lemma_subtree_included(w, c, fam2, anc2, sub2, fam1, anc1, sub1, node, x);
    }
    assert(sub1 =~= sub2);
}

/// Writing the tree value of `e` changes that value only, and keeps every
/// entity with a tree value such an entity.
pub proof fn lemma_with_tree<E: ?Sized>(w: WorldView<Tree<E>>, c: usize, e: (usize, usize), t: Tree<E>)
    requires
        w.wf(),
        w.is_component(c),
        node_ok(w, c, e),
    ensures
        with_tree(w, c, e, t).wf(),
        tree(with_tree(w, c, e, t), c, e) == t,
        forall|f: (usize, usize)| #[trigger] node_ok(w, c, f) ==> node_ok(with_tree(w, c, e, t), c, f),
        forall|f: (usize, usize)| f != e ==> #[trigger] with_tree(w, c, e, t).entities[f] == w.entities[f],
        forall|f: (usize, usize)| f != e ==> #[trigger] tree(with_tree(w, c, e, t), c, f) == tree(w, c, f),
        with_tree(w, c, e, t).entities.dom() == w.entities.dom(),
        with_tree(w, c, e, t).layouts == w.layouts,
{
    lemma_write_keeps_nodes(w, c, e, t);
    w.lemma_set_value(e, c, Some(t));
    let w1 = with_tree(w, c, e, t);
    assert forall|f: (usize, usize)| f != e implies #[trigger] tree(w1, c, f) == tree(w, c, f) by {
        assert(w1.entities[f] == w.entities[f]);
    }
}

/// Putting `x` at position `i` of a cycle: when the element before that
/// position now leads to `x`, `x` leads to the element that was at the
/// position, and every other element is as before, the result is a cycle.
#[verifier::spinoff_prover]
pub proof fn lemma_cycle_insert(
    ok: spec_fn((usize, usize)) -> bool,
    nx: spec_fn((usize, usize)) -> (usize, usize),
    ok2: spec_fn((usize, usize)) -> bool,
    nx2: spec_fn((usize, usize)) -> (usize, usize),
    s: Seq<(usize, usize)>,
    i: int,
    x: (usize, usize),
)
    requires
        cycle_of(ok, nx, s),
        0 <= i <= s.len(),
        !s.contains(x),
        ok2(x),
        nx2(x) == s[if i == s.len() {
            0
        } else {
            i
        }],
        forall|k: int|
            0 <= k < s.len() ==> ok2(#[trigger] s[k]) && nx2(s[k]) == if k == (if i == 0 {
                s.len() - 1
            } else {
                i - 1
            }) {
                x
            } else {
                nx(s[k])
            },
    ensures
        cycle_of(ok2, nx2, s.insert(i, x)),
{
    let n = s.len() as int;
    let t = s.insert(i, x);
    assert(t.len() == n + 1);
    assert forall|k: int| 0 <= k < n + 1 implies #[trigger] t[k] == if k < i {
        s[k]
    } else if k == i {
        x
    } else {
        s[k - 1]
    } by {}
    assert(t.no_duplicates()) by {
        assert forall|a: int, b: int| 0 <= a < n + 1 && 0 <= b < n + 1 && a != b implies t[a] != t[b] by {
            assert(t[a] == if a < i { s[a] } else if a == i { x } else { s[a - 1] });
            assert(t[b] == if b < i { s[b] } else if b == i { x } else { s[b - 1] });
            if a != i && b != i {
                let sa = if a < i { a } else { a - 1 };
                let sb = if b < i { b } else { b - 1 };
                assert(sa != sb);
            } else if a == i {
                let sb = if b < i { b } else { b - 1 };
                assert(s.contains(s[sb]));
            } else {
                let sa = if a < i { a } else { a - 1 };
                assert(s.contains(s[sa]));
            }
        }
    }
    assert forall|k: int| #![trigger t[k]] 0 <= k < n + 1 implies ok2(t[k]) && nx2(t[k]) == succ(t, k) by {
        assert(t[k] == if k < i { s[k] } else if k == i { x } else { s[k - 1] });
        if k == i {
            if i < n {
                assert(t[k + 1] == s[i]);
            } else {
                assert(t[0] == if 0 < i { s[0] } else { x });
            }
        } else {
            let sk = if k < i { k } else { k - 1 };
            assert(ok(s[sk]) && nx(s[sk]) == succ(s, sk));
            if k + 1 < n + 1 {
                assert(t[k + 1] == if k + 1 < i { s[k + 1] } else if k + 1 == i { x } else { s[k] });
            } else {
                assert(t[0] == if 0 < i { s[0] } else { x });
            }
        }
    }
}

/// The cycle of the children of `p` in `w1` is the one in `w0` where the
/// two worlds agree on the children.
proof fn lemma_children_frame<E: ?Sized>(
    w0: WorldView<Tree<E>>,
    w1: WorldView<Tree<E>>,
    c: usize,
    p: (usize, usize),
    s: Seq<(usize, usize)>,
)
    requires
        cycle_of(|e: (usize, usize)| child_of(w0, c, e, p), |e: (usize, usize)| tree(w0, c, e).next_sibling@, s),
        w1.layouts == w0.layouts,
        forall|i: int| 0 <= i < s.len() ==> w1.entities.contains_key(#[trigger] s[i]) == w0.entities.contains_key(s[i]) && w1.entities[s[i]] == w0.entities[s[i]],
    ensures
        cycle_of(|e: (usize, usize)| child_of(w1, c, e, p), |e: (usize, usize)| tree(w1, c, e).next_sibling@, s),
{
    lemma_cycle_congruent(
        |e: (usize, usize)| child_of(w0, c, e, p),
        |e: (usize, usize)| tree(w0, c, e).next_sibling@,
        |e: (usize, usize)| child_of(w1, c, e, p),
        |e: (usize, usize)| tree(w1, c, e).next_sibling@,
        s,
    );
}

/// Linking the detached `node` in after the child at position `q` of a
/// family, where `i` is the position after `q`, makes `node` the child at
/// position `i`; `parent` keeps its tree value.
proof fn lemma_link_family<E: ?Sized>(
    w: WorldView<Tree<E>>,
    c: usize,
    parent: Entity<E>,
    node: Entity<E>,
    s: Seq<(usize, usize)>,
    i: int,
)
    requires
        w.wf(),
        w.is_component(c),
        family_ok(w, c, parent@, s),
        s.len() > 0,
        0 <= i <= s.len(),
        node_ok(w, c, node@),
        detached(w, c, node@),
        !s.contains(node@),
        !s.contains(parent@),
        node@ != parent@,
    ensures
        ({
            let q = if i == 0 {
                s.len() - 1
            } else {
                i - 1
            };
            let w1 = linked_after(w, c, parent, s[q], node);
            &&& w1.wf()
            &&& cycle_of(
                |e: (usize, usize)| child_of(w1, c, e, parent@),
                |e: (usize, usize)| tree(w1, c, e).next_sibling@,
                s.insert(i, node@),
            )
            &&& node_ok(w1, c, parent@)
            &&& tree(w1, c, parent@) == tree(w, c, parent@)
            &&& forall|f: (usize, usize)| #[trigger] node_ok(w, c, f) ==> node_ok(w1, c, f)
            &&& forall|f: (usize, usize)| f != s[q] && f != node@ ==> #[trigger] w1.entities[f] == w.entities[f]
            &&& w1.entities.dom() == w.entities.dom()
            &&& w1.layouts == w.layouts
        }),
{
    let n = s.len() as int;
    let q = if i == 0 { n - 1 } else { i - 1 };
    let prev = s[q];
    let ok = |e: (usize, usize)| child_of(w, c, e, parent@);
    let nx = |e: (usize, usize)| tree(w, c, e).next_sibling@;
    assert(ok(s[q]) && nx(s[q]) == succ(s, q));
    let next = tree(w, c, prev).next_sibling;
    let w0 = with_next(w, c, prev, node);
    lemma_with_tree(w, c, prev, Tree { next_sibling: node, ..tree(w, c, prev) });
    assert(prev != node@);
    let w1 = with_parent_next(w0, c, node@, parent, next);
    lemma_with_tree(w0, c, node@, Tree { parent: Some(parent), next_sibling: next, ..tree(w0, c, node@) });
    assert(w1 == linked_after(w, c, parent, prev, node));
    let ok2 = |e: (usize, usize)| child_of(w1, c, e, parent@);
    let nx2 = |e: (usize, usize)| tree(w1, c, e).next_sibling@;
    assert(ok2(node@));
    assert(nx2(node@) == s[if i == n { 0 } else { i }]);
    assert forall|k: int| 0 <= k < n implies ok2(#[trigger] s[k]) && nx2(s[k]) == if k == q { node@ } else { nx(s[k]) } by {
        assert(ok(s[k]) && nx(s[k]) == succ(s, k));
        assert(s[k] != node@);
        if k != q {
            assert(s[k] != prev);
        }
    }
    lemma_cycle_insert(ok, nx, ok2, nx2, s, i, node@);
}

/// Attaching a detached entity that is neither `parent` nor one of its
/// children as the last child of `parent` appends it to the children.
pub proof fn lemma_attach_last_family<E: ?Sized>(
    w: WorldView<Tree<E>>,
    c: usize,
    parent: Entity<E>,
    node: Entity<E>,
    s: Seq<(usize, usize)>,
)
    requires
        w.wf(),
        w.is_component(c),
        family_ok(w, c, parent@, s),
        node_ok(w, c, node@),
        detached(w, c, node@),
        !s.contains(node@),
        !s.contains(parent@),
        node@ != parent@,
    ensures
        attached_last(w, c, parent, node).wf(),
        family_ok(attached_last(w, c, parent, node), c, parent@, s.push(node@)),
        forall|f: (usize, usize)| #[trigger] node_ok(w, c, f) ==> node_ok(attached_last(w, c, parent, node), c, f),
{
    let n = s.len() as int;
    if n == 0 {
        let w1 = with_parent_next(w, c, node@, parent, tree(w, c, node@).next_sibling);
        lemma_with_tree(w, c, node@, Tree { parent: Some(parent), next_sibling: tree(w, c, node@).next_sibling, ..tree(w, c, node@) });
        let w2 = with_last_child(w1, c, parent@, Some(node));
        lemma_with_tree(w1, c, parent@, Tree { last_child: Some(node), ..tree(w1, c, parent@) });
        let t = s.push(node@);
        assert(t =~= seq![node@]);
        assert(child_of(w2, c, t[0], parent@));
    } else {
        assert(s.insert(n, node@) =~= s.push(node@));
        lemma_link_family(w, c, parent, node, s, n);
        let w1 = linked_after(w, c, parent, s[n - 1], node);
        assert(tree(w, c, parent@).last_child is Some);
        let l = tree(w, c, parent@).last_child->Some_0;
        Entity::lemma_view_injective(l, l);
        let w2 = with_last_child(w1, c, parent@, Some(node));
        lemma_with_tree(w1, c, parent@, Tree { last_child: Some(node), ..tree(w1, c, parent@) });
        let t = s.push(node@);
        assert forall|k: int| 0 <= k < t.len() implies w2.entities.contains_key(#[trigger] t[k]) == w1.entities.contains_key(t[k]) && w2.entities[t[k]] == w1.entities[t[k]] by {
            if k < n {
                assert(t[k] == s[k]);
            }
        }
        lemma_children_frame(w1, w2, c, parent@, t);
    }
}

/// Attaching a detached entity that is neither `parent` nor one of its
/// children as the first child of `parent` puts it in front of the
/// children.
pub proof fn lemma_attach_first_family<E: ?Sized>(
    w: WorldView<Tree<E>>,
    c: usize,
    parent: Entity<E>,
    node: Entity<E>,
    s: Seq<(usize, usize)>,
)
    requires
        w.wf(),
        w.is_component(c),
        family_ok(w, c, parent@, s),
        node_ok(w, c, node@),
        detached(w, c, node@),
        !s.contains(node@),
        !s.contains(parent@),
        node@ != parent@,
    ensures
        attached_first(w, c, parent, node).wf(),
        family_ok(attached_first(w, c, parent, node), c, parent@, seq![node@] + s),
        forall|f: (usize, usize)| #[trigger] node_ok(w, c, f) ==> node_ok(attached_first(w, c, parent, node), c, f),
{
    let n = s.len() as int;
    if n == 0 {
        let w1 = with_parent_next(w, c, node@, parent, tree(w, c, node@).next_sibling);
        lemma_with_tree(w, c, node@, Tree { parent: Some(parent), next_sibling: tree(w, c, node@).next_sibling, ..tree(w, c, node@) });
        let w2 = with_last_child(w1, c, parent@, Some(node));
        lemma_with_tree(w1, c, parent@, Tree { last_child: Some(node), ..tree(w1, c, parent@) });
        let t = seq![node@] + s;
        assert(t =~= seq![node@]);
        assert(child_of(w2, c, t[0], parent@));
    } else {
        assert(s.insert(0, node@) =~= seq![node@] + s);
        lemma_link_family(w, c, parent, node, s, 0);
        let t = seq![node@] + s;
        assert(t.last() == s.last());
    }
}

/// Attaching a detached entity that is neither `parent` nor one of its
/// children after the child at position `k` of `parent` puts it right
/// after that child.
pub proof fn lemma_attach_after_family<E: ?Sized>(
    w: WorldView<Tree<E>>,
    c: usize,
    parent: Entity<E>,
    prev: Entity<E>,
    node: Entity<E>,
    s: Seq<(usize, usize)>,
    k: int,
)
    requires
        w.wf(),
        w.is_component(c),
        family_ok(w, c, parent@, s),
        0 <= k < s.len(),
        s[k] == prev@,
        node_ok(w, c, node@),
        detached(w, c, node@),
        !s.contains(node@),
        !s.contains(parent@),
        node@ != parent@,
    ensures
        attached_after(w, c, parent, prev, node).wf(),
        family_ok(attached_after(w, c, parent, prev, node), c, parent@, s.insert(k + 1, node@)),
        forall|f: (usize, usize)| #[trigger] node_ok(w, c, f) ==> node_ok(attached_after(w, c, parent, prev, node), c, f),
{
    let n = s.len() as int;
    lemma_link_family(w, c, parent, node, s, k + 1);
    let w1 = linked_after(w, c, parent, prev@, node);
    let t = s.insert(k + 1, node@);
    let l = tree(w, c, parent@).last_child->Some_0;
    Entity::lemma_view_injective(l, prev);
    assert(s.no_duplicates());
    if k == n - 1 {
        let w2 = with_last_child(w1, c, parent@, Some(node));
        lemma_with_tree(w1, c, parent@, Tree { last_child: Some(node), ..tree(w1, c, parent@) });
        assert(t.last() == node@);
        assert forall|i: int| 0 <= i < t.len() implies w2.entities.contains_key(#[trigger] t[i]) == w1.entities.contains_key(t[i]) && w2.entities[t[i]] == w1.entities[t[i]] by {
            if i < k + 1 {
                assert(t[i] == s[i]);
            }
        }
        lemma_children_frame(w1, w2, c, parent@, t);
    } else {
        assert(l@ == s[n - 1]);
        assert(l != prev);
        assert(t.last() == s.last());
    }
}

/// Detaching an only child from its parent leaves the parent without
/// children and the child detached.
pub proof fn lemma_detach_family<E: ?Sized>(w: WorldView<Tree<E>>, c: usize, parent: Entity<E>, node: Entity<E>)
    requires
        w.wf(),
        w.is_component(c),
        family_ok(w, c, parent@, seq![node@]),
        node@ != parent@,
    ensures
        detached_only_child(w, c, node).wf(),
        family_ok(detached_only_child(w, c, node), c, parent@, Seq::empty()),
        detached(detached_only_child(w, c, node), c, node@),
        node_ok(detached_only_child(w, c, node), c, node@),
{
    let s = seq![node@];
    let ok = |e: (usize, usize)| child_of(w, c, e, parent@);
    assert(ok(s[0]));
    let p = tree(w, c, node@).parent->Some_0;
    Entity::lemma_view_injective(p, parent);
    let w1 = with_tree(w, c, node@, Tree { parent: None, next_sibling: node, ..tree(w, c, node@) });
    lemma_with_tree(w, c, node@, Tree { parent: None, next_sibling: node, ..tree(w, c, node@) });
    lemma_with_tree(w1, c, parent@, Tree { last_child: None, ..tree(w1, c, parent@) });
}

/// Attaching a detached entity to a parent without children and detaching
/// it again gives the world back.
pub proof fn lemma_attach_then_detach<E: ?Sized>(w: WorldView<Tree<E>>, c: usize, parent: Entity<E>, node: Entity<E>)
    requires
        w.wf(),
        w.is_component(c),
        family_ok(w, c, parent@, Seq::empty()),
        node_ok(w, c, node@),
        detached(w, c, node@),
        node@ != parent@,
    ensures
        detached_only_child(attached_last(w, c, parent, node), c, node) == w,
        detached_only_child(attached_first(w, c, parent, node), c, node) == w,
{
    let t0 = tree(w, c, node@);
    Entity::lemma_view_injective(t0.next_sibling, node);
    let w1 = with_parent_next(w, c, node@, parent, t0.next_sibling);
    lemma_with_tree(w, c, node@, Tree { parent: Some(parent), next_sibling: t0.next_sibling, ..t0 });
    let w2 = with_last_child(w1, c, parent@, Some(node));
    lemma_with_tree(w1, c, parent@, Tree { last_child: Some(node), ..tree(w1, c, parent@) });
    assert(tree(w2, c, node@).parent == Some(parent));
    let w3 = with_tree(w2, c, node@, Tree { parent: None, next_sibling: node, ..tree(w2, c, node@) });
    lemma_with_tree(w2, c, node@, Tree { parent: None, next_sibling: node, ..tree(w2, c, node@) });
    let w4 = with_last_child(w3, c, parent@, None);
    // Node: written twice, the second time with its old value.
    w.lemma_set_value_twice(node@, c, Some(Tree { parent: Some(parent), next_sibling: t0.next_sibling, ..t0 }), Some(t0));
    w.lemma_set_same_value(node@, c);
    // Parent: written twice, the second time with its old value.
    let tp = tree(w, c, parent@);
    assert(w3 == w.set_value(parent@, c, Some(Tree { last_child: Some(node), ..tp })).set_value(node@, c, Some(t0))) by {
        w.lemma_set_value_commute(node@, c, Some(Tree { parent: Some(parent), next_sibling: t0.next_sibling, ..t0 }), parent@, c, Some(Tree { last_child: Some(node), ..tp }));
        w.lemma_set_value(parent@, c, Some(Tree { last_child: Some(node), ..tp }));
        let wp = w.set_value(parent@, c, Some(Tree { last_child: Some(node), ..tp }));
        wp.lemma_set_value_twice(node@, c, Some(Tree { parent: Some(parent), next_sibling: t0.next_sibling, ..t0 }), Some(t0));
    }
    assert(Tree { parent: None, next_sibling: node, ..tree(w2, c, node@) } == t0);
    assert(tp.last_child is None);
    assert(Tree { last_child: None, ..tree(w3, c, parent@) } == tp);
    w.lemma_set_value_commute(parent@, c, Some(Tree { last_child: Some(node), ..tp }), node@, c, Some(t0));
    w.lemma_set_value(node@, c, Some(t0));
    let wn = w.set_value(node@, c, Some(t0));
    wn.lemma_set_value_twice(parent@, c, Some(Tree { last_child: Some(node), ..tp }), Some(tp));
    wn.lemma_set_same_value(parent@, c);
    assert(attached_first(w, c, parent, node) == attached_last(w, c, parent, node));
}

/// The entities `nodes` form a forest: `fam` gives the children of each of
/// them, each child has a smaller rank than its parent (so that parent links
/// have no cycle), every entity with a parent is among its parent's
/// children, and every entity without a parent is its own next sibling.
pub open spec fn forest<E: ?Sized>(
    w: WorldView<Tree<E>>,
    c: usize,
    nodes: Set<(usize, usize)>,
    fam: Map<(usize, usize), Seq<(usize, usize)>>,
    rank: Map<(usize, usize), nat>,
) -> bool {
    forall|x: (usize, usize)|
        #[trigger] nodes.contains(x) ==> {
            &&& fam.contains_key(x)
            &&& rank.contains_key(x)
            &&& family_ok(w, c, x, fam[x])
            &&& forall|i: int|
                0 <= i < fam[x].len() ==> nodes.contains(#[trigger] fam[x][i]) && rank.contains_key(fam[x][i])
                    && rank[fam[x][i]] < rank[x]
            &&& match tree(w, c, x).parent {
                None => tree(w, c, x).next_sibling@ == x,
                Some(p) => nodes.contains(p@) && fam[p@].contains(x),
            }
        }
}

/// The ranks after the subtree `sub` of a root `node` was attached below
/// another entity: the subtree keeps its ranks and every other entity is
/// raised above them.
pub open spec fn attach_rank(
    rank: Map<(usize, usize), nat>,
    nodes: Set<(usize, usize)>,
    sub: Set<(usize, usize)>,
    node: (usize, usize),
) -> Map<(usize, usize), nat> {
    Map::new(
        |x: (usize, usize)| nodes.contains(x),
        |x: (usize, usize)|
            if sub.contains(x) {
                rank[x]
            } else {
                rank[x] + rank[node] + 1
            },
    )
}

/// A family whose parent keeps its last child and whose children keep their
/// parents and next siblings is still a family.
proof fn lemma_family_fields<E: ?Sized>(
    w1: WorldView<Tree<E>>,
    w2: WorldView<Tree<E>>,
    c: usize,
    x: (usize, usize),
    s: Seq<(usize, usize)>,
)
    requires
        family_ok(w1, c, x, s),
        node_ok(w2, c, x),
        tree(w2, c, x).last_child == tree(w1, c, x).last_child,
        forall|i: int|
            0 <= i < s.len() ==> node_ok(w2, c, #[trigger] s[i]) && tree(w2, c, s[i]).parent == tree(w1, c, s[i]).parent
                && tree(w2, c, s[i]).next_sibling == tree(w1, c, s[i]).next_sibling,
    ensures
        family_ok(w2, c, x, s),
{
    if s.len() > 0 {
        assert forall|i: int| 0 <= i < s.len() implies child_of(w1, c, #[trigger] s[i], x) == child_of(w2, c, s[i], x)
            && tree(w1, c, s[i]).next_sibling@ == tree(w2, c, s[i]).next_sibling@ by {
            assert(node_ok(w2, c, s[i]));
            let ok = |e: (usize, usize)| child_of(w1, c, e, x);
            assert(ok(s[i]));
        }
        lemma_cycle_congruent(
            |e: (usize, usize)| child_of(w1, c, e, x),
            |e: (usize, usize)| tree(w1, c, e).next_sibling@,
            |e: (usize, usize)| child_of(w2, c, e, x),
            |e: (usize, usize)| tree(w2, c, e).next_sibling@,
            s,
        );
    }
}

/// In a forest, the subtree of a root holds the children of its entities
/// and no child of an entity outside it.
proof fn lemma_subtree_closed<E: ?Sized>(
    w: WorldView<Tree<E>>,
    c: usize,
    nodes: Set<(usize, usize)>,
    fam: Map<(usize, usize), Seq<(usize, usize)>>,
    rank: Map<(usize, usize), nat>,
    fam_s: Map<(usize, usize), Seq<(usize, usize)>>,
    anc: Map<(usize, usize), Seq<(usize, usize)>>,
    sub: Set<(usize, usize)>,
    node: (usize, usize),
    x: (usize, usize),
    i: int,
)
    requires
        forest(w, c, nodes, fam, rank),
        subtree(w, c, fam_s, anc, sub, node),
        tree(w, c, node).parent is None,
        nodes.contains(x),
        0 <= i < fam[x].len(),
    ensures
        sub.contains(fam[x][i]) <==> sub.contains(x),
        fam[x][i] != node,
{
    let y = fam[x][i];
    assert(nodes.contains(x));
    let ok = |e: (usize, usize)| child_of(w, c, e, x);
    assert(ok(fam[x][i]));
    if sub.contains(x) {
        lemma_family_unique(w, c, x, fam_s[x], fam[x]);
        assert(sub.contains(fam_s[x][i]));
    }
    if sub.contains(y) && y != node {
        let p = anc[y][anc[y].len() - 2];
        assert(sub.contains(p));
        let k = fam_s[p].index_of(y);
        assert(fam_s[p][k] == y);
        let okp = |e: (usize, usize)| child_of(w, c, e, p);
        assert(okp(fam_s[p][k]));
    }
}

/// What attaching `node` below `parent`, whose children were `s`, changes
/// at most: `node` gets `parent` as its parent and keeps its children,
/// `parent` may get a new last child, and only `node` and the children of
/// `parent` may get new next siblings.
pub open spec fn attach_changes<E: ?Sized>(
    w: WorldView<Tree<E>>,
    w2: WorldView<Tree<E>>,
    c: usize,
    parent: Entity<E>,
    node: Entity<E>,
    s: Seq<(usize, usize)>,
) -> bool {
    &&& forall|f: (usize, usize)| #[trigger] node_ok(w, c, f) ==> node_ok(w2, c, f)
    &&& tree(w2, c, node@).parent == Some(parent)
    &&& tree(w2, c, node@).last_child == tree(w, c, node@).last_child
    &&& forall|f: (usize, usize)| f != node@ ==> #[trigger] tree(w2, c, f).parent == tree(w, c, f).parent
    &&& forall|f: (usize, usize)| f != parent@ ==> #[trigger] tree(w2, c, f).last_child == tree(w, c, f).last_child
    &&& forall|f: (usize, usize)|
        f != node@ && !s.contains(f) ==> #[trigger] tree(w2, c, f).next_sibling == tree(w, c, f).next_sibling
}

/// An entity whose tree changed in the ways that attaching the root `node`
/// below `parent` changes it is still part of a forest: `node` joins the
/// children `s2` of `parent`, and nothing else changes but sibling links
/// among the children of `parent` and the last child of `parent`.
proof fn lemma_forest_attach<E: ?Sized>(
    w: WorldView<Tree<E>>,
    w2: WorldView<Tree<E>>,
    c: usize,
    nodes: Set<(usize, usize)>,
    fam: Map<(usize, usize), Seq<(usize, usize)>>,
    rank: Map<(usize, usize), nat>,
    parent: Entity<E>,
    node: Entity<E>,
    s2: Seq<(usize, usize)>,
    fam_s: Map<(usize, usize), Seq<(usize, usize)>>,
    anc: Map<(usize, usize), Seq<(usize, usize)>>,
    sub: Set<(usize, usize)>,
)
    requires
        forest(w, c, nodes, fam, rank),
        nodes.contains(parent@),
        nodes.contains(node@),
        detached(w, c, node@),
        subtree(w, c, fam_s, anc, sub, node@),
        !sub.contains(parent@),
        family_ok(w2, c, parent@, s2),
        forall|y: (usize, usize)| s2.contains(y) <==> (fam[parent@].contains(y) || y == node@),
        attach_changes(w, w2, c, parent, node, fam[parent@]),
    ensures
        forest(w2, c, nodes, fam.insert(parent@, s2), attach_rank(rank, nodes, sub, node@)),
{
    let fam2 = fam.insert(parent@, s2);
    let rank2 = attach_rank(rank, nodes, sub, node@);
    assert(sub.contains(node@));
    assert(parent@ != node@);
    assert forall|x: (usize, usize)| #[trigger] nodes.contains(x) implies {
        &&& fam2.contains_key(x)
        &&& rank2.contains_key(x)
        &&& family_ok(w2, c, x, fam2[x])
        &&& forall|i: int|
            0 <= i < fam2[x].len() ==> nodes.contains(#[trigger] fam2[x][i]) && rank2.contains_key(fam2[x][i])
                && rank2[fam2[x][i]] < rank2[x]
        &&& match tree(w2, c, x).parent {
            None => tree(w2, c, x).next_sibling@ == x,
            Some(p) => nodes.contains(p@) && fam2[p@].contains(x),
        }
    } by {
        assert(nodes.contains(x));
        if x != parent@ {
            assert forall|i: int| 0 <= i < fam[x].len() implies node_ok(w2, c, #[trigger] fam[x][i]) && tree(w2, c, fam[x][i]).parent
                == tree(w, c, fam[x][i]).parent && tree(w2, c, fam[x][i]).next_sibling == tree(w, c, fam[x][i]).next_sibling by {
                let y = fam[x][i];
                let ok = |e: (usize, usize)| child_of(w, c, e, x);
                assert(ok(fam[x][i]));
                lemma_subtree_closed(w, c, nodes, fam, rank, fam_s, anc, sub, node@, x, i);
                if fam[parent@].contains(y) {
                    let k = fam[parent@].index_of(y);
                    assert(fam[parent@][k] == y);
                    assert(nodes.contains(parent@));
                    let okp = |e: (usize, usize)| child_of(w, c, e, parent@);
                    assert(okp(fam[parent@][k]));
                }
            }
            lemma_family_fields(w, w2, c, x, fam[x]);
            assert forall|i: int| 0 <= i < fam2[x].len() implies nodes.contains(#[trigger] fam2[x][i]) && rank2.contains_key(fam2[x][i])
                && rank2[fam2[x][i]] < rank2[x] by {
                lemma_subtree_closed(w, c, nodes, fam, rank, fam_s, anc, sub, node@, x, i);
            }
        } else {
            assert forall|i: int| 0 <= i < fam2[x].len() implies nodes.contains(#[trigger] fam2[x][i]) && rank2.contains_key(fam2[x][i])
                && rank2[fam2[x][i]] < rank2[x] by {
                let y = s2[i];
                assert(s2.contains(y));
                if y != node@ {
                    let k = fam[parent@].index_of(y);
                    assert(fam[parent@][k] == y);
                    lemma_subtree_closed(w, c, nodes, fam, rank, fam_s, anc, sub, node@, x, k);
                }
            }
        }
        if x == node@ {
            assert(s2.contains(node@));
        } else {
            match tree(w, c, x).parent {
                Some(p) => {
                    if p@ == parent@ {
                        let k = fam[parent@].index_of(x);
                        assert(fam[parent@][k] == x);
                        assert(s2.contains(x));
                    }
                },
                None => {
                    if fam[parent@].contains(x) {
                        let k = fam[parent@].index_of(x);
                        assert(fam[parent@][k] == x);
                        let okp = |e: (usize, usize)| child_of(w, c, e, parent@);
                        assert(okp(fam[parent@][k]));
                    }
                },
            }
        }
    }
}

/// What writing a tree value of `e` built from the old one changes: the
/// fields of `e` become those of `t`, and nothing else changes.
proof fn lemma_write_fields<E: ?Sized>(w: WorldView<Tree<E>>, c: usize, e: (usize, usize), t: Tree<E>)
    requires
        w.wf(),
        w.is_component(c),
        node_ok(w, c, e),
    ensures
        with_tree(w, c, e, t).wf(),
        forall|f: (usize, usize)| #[trigger] node_ok(w, c, f) ==> node_ok(with_tree(w, c, e, t), c, f),
        forall|f: (usize, usize)| #[trigger] tree(with_tree(w, c, e, t), c, f) == if f == e {
            t
        } else {
            tree(w, c, f)
        },
{
    lemma_with_tree(w, c, e, t);
}

/// The fields that linking `node` in after `prev` changes: `node` gets the
/// parent and the next sibling, `prev` gets `node` as next sibling.
proof fn lemma_linked_after_fields<E: ?Sized>(
    w: WorldView<Tree<E>>,
    c: usize,
    parent: Entity<E>,
    prev: (usize, usize),
    node: Entity<E>,
)
    requires
        w.wf(),
        w.is_component(c),
        node_ok(w, c, prev),
        node_ok(w, c, node@),
    ensures
        linked_after(w, c, parent, prev, node).wf(),
        forall|f: (usize, usize)| #[trigger] node_ok(w, c, f) ==> node_ok(linked_after(w, c, parent, prev, node), c, f),
        tree(linked_after(w, c, parent, prev, node), c, node@).parent == Some(parent),
        forall|f: (usize, usize)|
            f != node@ ==> #[trigger] tree(linked_after(w, c, parent, prev, node), c, f).parent == tree(w, c, f).parent,
        forall|f: (usize, usize)|
            #[trigger] tree(linked_after(w, c, parent, prev, node), c, f).last_child == tree(w, c, f).last_child,
        forall|f: (usize, usize)|
            f != node@ && f != prev ==> #[trigger] tree(linked_after(w, c, parent, prev, node), c, f).next_sibling
                == tree(w, c, f).next_sibling,
{
    let t1 = Tree { next_sibling: node, ..tree(w, c, prev) };
    lemma_write_fields(w, c, prev, t1);
    let w1 = with_tree(w, c, prev, t1);
    let t2 = Tree { parent: Some(parent), next_sibling: tree(w, c, prev).next_sibling, ..tree(w1, c, node@) };
    lemma_write_fields(w1, c, node@, t2);
}

/// The fields that setting the last child of `p` changes: only that one.
proof fn lemma_last_child_fields<E: ?Sized>(
    w: WorldView<Tree<E>>,
    c: usize,
    p: (usize, usize),
    last: Option<Entity<E>>,
)
    requires
        w.wf(),
        w.is_component(c),
        node_ok(w, c, p),
    ensures
        with_last_child(w, c, p, last).wf(),
        forall|f: (usize, usize)| #[trigger] node_ok(w, c, f) ==> node_ok(with_last_child(w, c, p, last), c, f),
        forall|f: (usize, usize)| #[trigger] tree(with_last_child(w, c, p, last), c, f).parent == tree(w, c, f).parent,
        forall|f: (usize, usize)|
            #[trigger] tree(with_last_child(w, c, p, last), c, f).next_sibling == tree(w, c, f).next_sibling,
        forall|f: (usize, usize)|
            f != p ==> #[trigger] tree(with_last_child(w, c, p, last), c, f).last_child == tree(w, c, f).last_child,
        tree(with_last_child(w, c, p, last), c, p).last_child == last,
{
    lemma_write_fields(w, c, p, Tree { last_child: last, ..tree(w, c, p) });
}

/// Linking `node` in after the child `prev` of `parent`, and maybe making it
/// the last child, changes what attaching changes.
proof fn lemma_link_changes<E: ?Sized>(
    w: WorldView<Tree<E>>,
    c: usize,
    parent: Entity<E>,
    prev: (usize, usize),
    node: Entity<E>,
    s: Seq<(usize, usize)>,
    make_last: bool,
)
    requires
        w.wf(),
        w.is_component(c),
        node_ok(w, c, prev),
        node_ok(w, c, node@),
        node_ok(w, c, parent@),
        s.contains(prev),
        node@ != parent@,
    ensures
        attach_changes(
            w,
            if make_last {
                with_last_child(linked_after(w, c, parent, prev, node), c, parent@, Some(node))
            } else {
                linked_after(w, c, parent, prev, node)
            },
            c,
            parent,
            node,
            s,
        ),
{
    lemma_linked_after_fields(w, c, parent, prev, node);
    let w1 = linked_after(w, c, parent, prev, node);
    if make_last {
        lemma_last_child_fields(w1, c, parent@, Some(node));
        let w2 = with_last_child(w1, c, parent@, Some(node));
        assert forall|f: (usize, usize)| f != node@ && !s.contains(f) implies #[trigger] tree(w2, c, f).next_sibling
            == tree(w, c, f).next_sibling by {
            assert(tree(w2, c, f).next_sibling == tree(w1, c, f).next_sibling);
            assert(f != prev);
        }
        assert forall|f: (usize, usize)| f != node@ implies #[trigger] tree(w2, c, f).parent == tree(w, c, f).parent by {
            assert(tree(w2, c, f).parent == tree(w1, c, f).parent);
        }
        assert(tree(w2, c, node@).parent == tree(w1, c, node@).parent);
    } else {
        assert forall|f: (usize, usize)| f != node@ && !s.contains(f) implies #[trigger] tree(w1, c, f).next_sibling
            == tree(w, c, f).next_sibling by {
            assert(f != prev);
        }
    }
}

/// Attaching `node` to `parent` without children changes what attaching
/// changes.
proof fn lemma_first_child_changes<E: ?Sized>(
    w: WorldView<Tree<E>>,
    c: usize,
    parent: Entity<E>,
    node: Entity<E>,
    s: Seq<(usize, usize)>,
)
    requires
        w.wf(),
        w.is_component(c),
        node_ok(w, c, node@),
        node_ok(w, c, parent@),
        node@ != parent@,
    ensures
        attach_changes(
            w,
            with_last_child(with_parent_next(w, c, node@, parent, tree(w, c, node@).next_sibling), c, parent@, Some(node)),
            c,
            parent,
            node,
            s,
        ),
{
    let t1 = Tree { parent: Some(parent), next_sibling: tree(w, c, node@).next_sibling, ..tree(w, c, node@) };
    lemma_write_fields(w, c, node@, t1);
    let w1 = with_tree(w, c, node@, t1);
    lemma_last_child_fields(w1, c, parent@, Some(node));
    let w2 = with_last_child(w1, c, parent@, Some(node));
    assert forall|f: (usize, usize)| f != node@ implies #[trigger] tree(w2, c, f).parent == tree(w, c, f).parent by {
        assert(tree(w2, c, f).parent == tree(w1, c, f).parent);
    }
    assert forall|f: (usize, usize)| f != node@ && !s.contains(f) implies #[trigger] tree(w2, c, f).next_sibling
        == tree(w, c, f).next_sibling by {
        assert(tree(w2, c, f).next_sibling == tree(w1, c, f).next_sibling);
    }
    assert(tree(w2, c, node@).parent == tree(w1, c, node@).parent);
    assert(tree(w2, c, node@).last_child == tree(w1, c, node@).last_child);
}

/// The facts about a root being attached that hold in a forest.
proof fn lemma_attach_setup<E: ?Sized>(
    w: WorldView<Tree<E>>,
    c: usize,
    nodes: Set<(usize, usize)>,
    fam: Map<(usize, usize), Seq<(usize, usize)>>,
    rank: Map<(usize, usize), nat>,
    parent: Entity<E>,
    node: Entity<E>,
    fam_s: Map<(usize, usize), Seq<(usize, usize)>>,
    anc: Map<(usize, usize), Seq<(usize, usize)>>,
    sub: Set<(usize, usize)>,
)
    requires
        forest(w, c, nodes, fam, rank),
        nodes.contains(parent@),
        nodes.contains(node@),
        detached(w, c, node@),
        subtree(w, c, fam_s, anc, sub, node@),
        !sub.contains(parent@),
    ensures
        family_ok(w, c, parent@, fam[parent@]),
        node_ok(w, c, node@),
        node_ok(w, c, parent@),
        !fam[parent@].contains(node@),
        !fam[parent@].contains(parent@),
        node@ != parent@,
        forall|i: int| 0 <= i < fam[parent@].len() ==> node_ok(w, c, #[trigger] fam[parent@][i]),
{
    assert(nodes.contains(parent@));
    assert(nodes.contains(node@));
    assert(sub.contains(node@));
    let s = fam[parent@];
    let ok = |e: (usize, usize)| child_of(w, c, e, parent@);
    if s.contains(node@) {
        let k = s.index_of(node@);
        assert(ok(s[k]));
    }
    if s.contains(parent@) {
        let k = s.index_of(parent@);
        assert(s[k] == parent@);
    }
    assert forall|i: int| 0 <= i < s.len() implies node_ok(w, c, #[trigger] s[i]) by {
        assert(ok(s[i]));
    }
}

/// Attaching a root entity of a finite forest as the last child of an
/// entity that is not below it keeps the forest a forest: the root joins the
/// children of the entity, and parent links stay free of cycles.
pub proof fn lemma_attach_last_keeps_forest<E: ?Sized>(
    w: WorldView<Tree<E>>,
    c: usize,
    nodes: Set<(usize, usize)>,
    fam: Map<(usize, usize), Seq<(usize, usize)>>,
    rank: Map<(usize, usize), nat>,
    parent: Entity<E>,
    node: Entity<E>,
)
    requires
        w.wf(),
        w.is_component(c),
        forest(w, c, nodes, fam, rank),
        nodes.contains(parent@),
        nodes.contains(node@),
        detached(w, c, node@),
        nodes.finite(),
        !forest_below(w, c, nodes, rank, node@).contains(parent@),
    ensures
        forest(
            attached_last(w, c, parent, node),
            c,
            nodes,
            fam.insert(parent@, fam[parent@].push(node@)),
            attach_rank(rank, nodes, forest_below(w, c, nodes, rank, node@), node@),
        ),
{
    let sub = forest_below(w, c, nodes, rank, node@);
    let anc = forest_paths(w, c, nodes, rank, node@);
    let fam_s = fam;
    lemma_forest_subtree(w, c, nodes, fam, rank, node@);
    lemma_attach_setup(w, c, nodes, fam, rank, parent, node, fam_s, anc, sub);
    let s = fam[parent@];
    let s2 = s.push(node@);
    lemma_attach_last_family(w, c, parent, node, s);
    let w2 = attached_last(w, c, parent, node);
    assert forall|y: (usize, usize)| s2.contains(y) <==> (s.contains(y) || y == node@) by {
        if s2.contains(y) {
            let k = s2.index_of(y);
            if k < s.len() {
                assert(s[k] == y);
            }
        }
        if s.contains(y) {
            let k = s.index_of(y);
            assert(s2[k] == y);
        }
        if y == node@ {
            assert(s2[s.len() as int] == y);
        }
    }
    match tree(w, c, parent@).last_child {
        Some(l) => {
            assert(s.len() > 0);
            assert(l@ == s[s.len() - 1]);
            assert(s.contains(l@));
            lemma_link_changes(w, c, parent, l@, node, s, true);
        },
        None => {
            lemma_first_child_changes(w, c, parent, node, s);
        },
    }
    lemma_forest_attach(w, w2, c, nodes, fam, rank, parent, node, s2, fam_s, anc, sub);
}

/// Attaching a root entity of a finite forest as the first child of an
/// entity that is not below it keeps the forest a forest.
pub proof fn lemma_attach_first_keeps_forest<E: ?Sized>(
    w: WorldView<Tree<E>>,
    c: usize,
    nodes: Set<(usize, usize)>,
    fam: Map<(usize, usize), Seq<(usize, usize)>>,
    rank: Map<(usize, usize), nat>,
    parent: Entity<E>,
    node: Entity<E>,
)
    requires
        w.wf(),
        w.is_component(c),
        forest(w, c, nodes, fam, rank),
        nodes.contains(parent@),
        nodes.contains(node@),
        detached(w, c, node@),
        nodes.finite(),
        !forest_below(w, c, nodes, rank, node@).contains(parent@),
    ensures
        forest(
            attached_first(w, c, parent, node),
            c,
            nodes,
            fam.insert(parent@, seq![node@] + fam[parent@]),
            attach_rank(rank, nodes, forest_below(w, c, nodes, rank, node@), node@),
        ),
{
    let sub = forest_below(w, c, nodes, rank, node@);
    let anc = forest_paths(w, c, nodes, rank, node@);
    let fam_s = fam;
    lemma_forest_subtree(w, c, nodes, fam, rank, node@);
    lemma_attach_setup(w, c, nodes, fam, rank, parent, node, fam_s, anc, sub);
    let s = fam[parent@];
    let s2 = seq![node@] + s;
    lemma_attach_first_family(w, c, parent, node, s);
    let w2 = attached_first(w, c, parent, node);
    assert forall|y: (usize, usize)| s2.contains(y) <==> (s.contains(y) || y == node@) by {
        if s2.contains(y) {
            let k = s2.index_of(y);
            if k > 0 {
                assert(s[k - 1] == y);
            }
        }
        if s.contains(y) {
            let k = s.index_of(y);
            assert(s2[k + 1] == y);
        }
        if y == node@ {
            assert(s2[0] == y);
        }
    }
    match tree(w, c, parent@).last_child {
        Some(l) => {
            assert(s.len() > 0);
            assert(l@ == s[s.len() - 1]);
            assert(s.contains(l@));
            lemma_link_changes(w, c, parent, l@, node, s, false);
        },
        None => {
            lemma_first_child_changes(w, c, parent, node, s);
        },
    }
    lemma_forest_attach(w, w2, c, nodes, fam, rank, parent, node, s2, fam_s, anc, sub);
}

/// Attaching a root entity of a finite forest after the child at position
/// `k` of an entity that is not below it keeps the forest a forest.
pub proof fn lemma_attach_after_keeps_forest<E: ?Sized>(
    w: WorldView<Tree<E>>,
    c: usize,
    nodes: Set<(usize, usize)>,
    fam: Map<(usize, usize), Seq<(usize, usize)>>,
    rank: Map<(usize, usize), nat>,
    parent: Entity<E>,
    prev: Entity<E>,
    node: Entity<E>,
    k: int,
)
    requires
        w.wf(),
        w.is_component(c),
        forest(w, c, nodes, fam, rank),
        nodes.contains(parent@),
        nodes.contains(node@),
        0 <= k < fam[parent@].len(),
        fam[parent@][k] == prev@,
        detached(w, c, node@),
        nodes.finite(),
        !forest_below(w, c, nodes, rank, node@).contains(parent@),
    ensures
        forest(
            attached_after(w, c, parent, prev, node),
            c,
            nodes,
            fam.insert(parent@, fam[parent@].insert(k + 1, node@)),
            attach_rank(rank, nodes, forest_below(w, c, nodes, rank, node@), node@),
        ),
{
    let sub = forest_below(w, c, nodes, rank, node@);
    let anc = forest_paths(w, c, nodes, rank, node@);
    let fam_s = fam;
    lemma_forest_subtree(w, c, nodes, fam, rank, node@);
    lemma_attach_setup(w, c, nodes, fam, rank, parent, node, fam_s, anc, sub);
    let s = fam[parent@];
    let s2 = s.insert(k + 1, node@);
    lemma_attach_after_family(w, c, parent, prev, node, s, k);
    let w2 = attached_after(w, c, parent, prev, node);
    assert forall|y: (usize, usize)| s2.contains(y) <==> (s.contains(y) || y == node@) by {
        if s2.contains(y) {
            let j = s2.index_of(y);
            if j < k + 1 {
                assert(s[j] == y);
            } else if j > k + 1 {
                assert(s[j - 1] == y);
            }
        }
        if s.contains(y) {
            let j = s.index_of(y);
            if j < k + 1 {
                assert(s2[j] == y);
            } else {
                assert(s2[j + 1] == y);
            }
        }
        if y == node@ {
            assert(s2[k + 1] == y);
        }
    }
    assert(node_ok(w, c, s[k]));
    let w1 = linked_after(w, c, parent, prev@, node);
    assert(s.contains(prev@));
    lemma_link_changes(w, c, parent, prev@, node, s, tree(w1, c, parent@).last_child == Some(prev));
    lemma_forest_attach(w, w2, c, nodes, fam, rank, parent, node, s2, fam_s, anc, sub);
}

/// The path from `x` down to `y` along parent links, each step going to an
/// entity of smaller rank; empty when there is no such path.
pub open spec fn path_down<E: ?Sized>(
    w: WorldView<Tree<E>>,
    c: usize,
    rank: Map<(usize, usize), nat>,
    x: (usize, usize),
    y: (usize, usize),
) -> Seq<(usize, usize)>
    decreases rank[x] - rank[y],
{
    if y == x {
        seq![x]
    } else if tree(w, c, y).parent is Some && rank[y] < rank[tree(w, c, y).parent->Some_0@]
        && rank[tree(w, c, y).parent->Some_0@] <= rank[x] {
        let pp = path_down(w, c, rank, x, tree(w, c, y).parent->Some_0@);
        if pp.len() > 0 {
            pp.push(y)
        } else {
            Seq::empty()
        }
    } else {
        Seq::empty()
    }
}

/// A path down from `x` to `y` starts at `x`, ends at `y`, and `y` has no
/// larger rank than `x`.
proof fn lemma_path_down<E: ?Sized>(
    w: WorldView<Tree<E>>,
    c: usize,
    rank: Map<(usize, usize), nat>,
    x: (usize, usize),
    y: (usize, usize),
)
    requires
        path_down(w, c, rank, x, y).len() > 0,
    ensures
        path_down(w, c, rank, x, y)[0] == x,
        path_down(w, c, rank, x, y).last() == y,
        rank[y] <= rank[x],
    decreases rank[x] - rank[y],
{
    if y != x {
        let p = tree(w, c, y).parent->Some_0@;
        lemma_path_down(w, c, rank, x, p);
    }
}

/// The entities of `nodes` below `x`.
pub open spec fn forest_below<E: ?Sized>(
    w: WorldView<Tree<E>>,
    c: usize,
    nodes: Set<(usize, usize)>,
    rank: Map<(usize, usize), nat>,
    x: (usize, usize),
) -> Set<(usize, usize)> {
    nodes.filter(|y: (usize, usize)| path_down(w, c, rank, x, y).len() > 0)
}

/// The paths down from `x` to the entities below it.
pub open spec fn forest_paths<E: ?Sized>(
    w: WorldView<Tree<E>>,
    c: usize,
    nodes: Set<(usize, usize)>,
    rank: Map<(usize, usize), nat>,
    x: (usize, usize),
) -> Map<(usize, usize), Seq<(usize, usize)>> {
    Map::new(
        |y: (usize, usize)| forest_below(w, c, nodes, rank, x).contains(y),
        |y: (usize, usize)| path_down(w, c, rank, x, y),
    )
}

/// In a finite forest every entity has a subtree: the entities below it,
/// reached by the paths down from it. So [`Tree::destroy`] can be called on
/// every root of a forest.
pub proof fn lemma_forest_subtree<E: ?Sized>(
    w: WorldView<Tree<E>>,
    c: usize,
    nodes: Set<(usize, usize)>,
    fam: Map<(usize, usize), Seq<(usize, usize)>>,
    rank: Map<(usize, usize), nat>,
    x: (usize, usize),
)
    requires
        forest(w, c, nodes, fam, rank),
        nodes.finite(),
        nodes.contains(x),
    ensures
        subtree(w, c, fam, forest_paths(w, c, nodes, rank, x), forest_below(w, c, nodes, rank, x), x),
{
    let sub = forest_below(w, c, nodes, rank, x);
    let anc = forest_paths(w, c, nodes, rank, x);
    assert(sub.subset_of(nodes));
    vstd::set_lib::lemma_len_subset(sub, nodes);
    assert(path_down(w, c, rank, x, x) == seq![x]);
    assert(sub.contains(x));
    assert forall|y: (usize, usize)| #[trigger] sub.contains(y) implies {
        &&& fam.contains_key(y)
        &&& anc.contains_key(y)
        &&& family_ok(w, c, y, fam[y])
        &&& forall|i: int|
            0 <= i < fam[y].len() ==> {
                &&& sub.contains(#[trigger] fam[y][i])
                &&& anc.contains_key(fam[y][i])
                &&& anc[fam[y][i]] == anc[y].push(fam[y][i])
            }
        &&& y != x ==> {
            &&& anc[y].len() >= 2
            &&& anc[y][0] == x
            &&& sub.contains(anc[y][anc[y].len() - 2])
            &&& fam[anc[y][anc[y].len() - 2]].contains(y)
        }
    } by {
        assert(nodes.contains(y));
        lemma_path_down(w, c, rank, x, y);
        assert forall|i: int| 0 <= i < fam[y].len() implies {
            &&& sub.contains(#[trigger] fam[y][i])
            &&& anc.contains_key(fam[y][i])
            &&& anc[fam[y][i]] == anc[y].push(fam[y][i])
        } by {
            let z = fam[y][i];
            let ok = |e: (usize, usize)| child_of(w, c, e, y);
            assert(ok(fam[y][i]));
            assert(nodes.contains(z));
            assert(z != x);
            assert(tree(w, c, z).parent->Some_0@ == y);
            assert(path_down(w, c, rank, x, z) == path_down(w, c, rank, x, y).push(z));
        }
        if y != x {
            let p = tree(w, c, y).parent->Some_0@;
            let pp = path_down(w, c, rank, x, p);
            assert(pp.len() > 0);
            lemma_path_down(w, c, rank, x, p);
            assert(anc[y] == pp.push(y));
            assert(anc[y][anc[y].len() - 2] == p);
            assert(nodes.contains(p));
        }
    }
}

/// Detaching an only child in a forest keeps the forest a forest: the child
/// becomes a root and its parent is left without children.
pub proof fn lemma_detach_keeps_forest<E: ?Sized>(
    w: WorldView<Tree<E>>,
    c: usize,
    nodes: Set<(usize, usize)>,
    fam: Map<(usize, usize), Seq<(usize, usize)>>,
    rank: Map<(usize, usize), nat>,
    node: Entity<E>,
)
    requires
        w.wf(),
        w.is_component(c),
        forest(w, c, nodes, fam, rank),
        nodes.contains(node@),
        tree(w, c, node@).parent is Some,
        tree(w, c, node@).next_sibling@ == node@,
    ensures
        forest(
            detached_only_child(w, c, node),
            c,
            nodes,
            fam.insert(tree(w, c, node@).parent->Some_0@, Seq::empty()),
            rank,
        ),
{
    let parent = tree(w, c, node@).parent->Some_0;
    let p = parent@;
    assert(nodes.contains(node@));
    assert(nodes.contains(p));
    let s = fam[p];
    let ok = |e: (usize, usize)| child_of(w, c, e, p);
    let nx = |e: (usize, usize)| tree(w, c, e).next_sibling@;
    // The only child: the family of the parent is the node alone.
    let k = s.index_of(node@);
    assert(s[k] == node@);
    crate::list::lemma_rotate_cycle(ok, nx, s, k);
    let r = crate::list::rotate(s, k);
    assert(nx(r[0]) == succ(r, 0));
    assert(r.len() == 1) by {
        if r.len() > 1 {
            assert(r[1] == r[0]);
        }
    }
    assert(s.len() == 1);
    assert(s =~= seq![node@]);
    assert(node@ != p) by {
        assert(rank[s[0]] < rank[p]);
    }
    Entity::lemma_view_injective(tree(w, c, node@).next_sibling, node);
    let t1 = Tree { parent: None, next_sibling: node, ..tree(w, c, node@) };
    assert(node_ok(w, c, node@)) by {
        assert(ok(s[0]));
    }
    lemma_write_fields(w, c, node@, t1);
    let w1 = with_tree(w, c, node@, t1);
    lemma_last_child_fields(w1, c, p, None);
    let w2 = with_last_child(w1, c, p, None);
    assert(w2 == detached_only_child(w, c, node));
    let fam2 = fam.insert(p, Seq::empty());
    assert forall|x: (usize, usize)| #[trigger] nodes.contains(x) implies {
        &&& fam2.contains_key(x)
        &&& rank.contains_key(x)
        &&& family_ok(w2, c, x, fam2[x])
        &&& forall|i: int|
            0 <= i < fam2[x].len() ==> nodes.contains(#[trigger] fam2[x][i]) && rank.contains_key(fam2[x][i])
                && rank[fam2[x][i]] < rank[x]
        &&& match tree(w2, c, x).parent {
            None => tree(w2, c, x).next_sibling@ == x,
            Some(q) => nodes.contains(q@) && fam2[q@].contains(x),
        }
    } by {
        assert(nodes.contains(x));
        if x != p {
            assert forall|i: int| 0 <= i < fam[x].len() implies node_ok(w2, c, #[trigger] fam[x][i]) && tree(w2, c, fam[x][i]).parent
                == tree(w, c, fam[x][i]).parent && tree(w2, c, fam[x][i]).next_sibling == tree(w, c, fam[x][i]).next_sibling by {
                let okx = |e: (usize, usize)| child_of(w, c, e, x);
                assert(okx(fam[x][i]));
                if fam[x][i] == node@ {
                    assert(x == p);
                }
            }
            lemma_family_fields(w, w2, c, x, fam[x]);
            assert(family_ok(w2, c, x, fam2[x]));
        } else {
            assert(node_ok(w2, c, p));
            assert(tree(w2, c, p).last_child is None);
            assert(family_ok(w2, c, x, fam2[x]));
        }
        if x != node@ {
            assert(tree(w2, c, x).parent == tree(w, c, x).parent);
            assert(tree(w2, c, x).next_sibling == tree(w, c, x).next_sibling);
            match tree(w, c, x).parent {
                Some(q) => {
                    assert(fam[q@].contains(x));
                    if q@ == p {
                        let j = fam[p].index_of(x);
                        assert(fam[p][j] == x);
                    }
                },
                None => {},
            }
        } else {
            assert(tree(w2, c, x) == t1);
        }
    }
}


/// `w2` differs from `w` at most in the tree values of the entities of
/// `d`: the layouts, the entities and their archetypes are the same, and so
/// is every value of another component or of another entity.
pub open spec fn changes_trees_of<E: ?Sized>(
    w: WorldView<Tree<E>>,
    w2: WorldView<Tree<E>>,
    c: usize,
    d: Set<(usize, usize)>,
) -> bool {
    &&& w2.layouts == w.layouts
    &&& w2.entities.dom() == w.entities.dom()
    &&& forall|e: (usize, usize)| #[trigger] w.contains(e) ==> w2.archetype(e) == w.archetype(e)
    &&& forall|e: (usize, usize), k: usize|
        w.contains(e) && w.is_component(k) && (k != c || !d.contains(e)) ==> #[trigger] w2.value(e, k)
            == w.value(e, k)
}

/// Writing the tree value of `e` changes no other value.
proof fn lemma_with_tree_changes<E: ?Sized>(w: WorldView<Tree<E>>, c: usize, e: (usize, usize), t: Tree<E>)
    requires
        w.wf(),
        w.is_component(c),
        node_ok(w, c, e),
    ensures
        changes_trees_of(w, with_tree(w, c, e, t), c, set![e]),
{
    lemma_with_tree(w, c, e, t);
    w.lemma_set_value(e, c, Some(t));
    let w1 = with_tree(w, c, e, t);
    assert forall|f: (usize, usize), k: usize|
        w.contains(f) && w.is_component(k) && (k != c || !set![e].contains(f)) implies #[trigger] w1.value(f, k)
        == w.value(f, k) by {
        if f != e {
            assert(w1.entities[f] == w.entities[f]);
        }
    }
    assert forall|f: (usize, usize)| #[trigger] w.contains(f) implies w1.archetype(f) == w.archetype(f) by {
        if f != e {
            assert(w1.entities[f] == w.entities[f]);
        }
    }
}

/// Changes made one after another change at most what either changes.
proof fn lemma_changes_trans<E: ?Sized>(
    w: WorldView<Tree<E>>,
    w1: WorldView<Tree<E>>,
    w2: WorldView<Tree<E>>,
    c: usize,
    d1: Set<(usize, usize)>,
    d2: Set<(usize, usize)>,
)
    requires
        changes_trees_of(w, w1, c, d1),
        changes_trees_of(w1, w2, c, d2),
    ensures
        changes_trees_of(w, w2, c, d1.union(d2)),
{
    assert forall|e: (usize, usize), k: usize|
        w.contains(e) && w.is_component(k) && (k != c || !d1.union(d2).contains(e)) implies #[trigger] w2.value(e, k)
        == w.value(e, k) by {
        assert(w1.contains(e));
        assert(w2.value(e, k) == w1.value(e, k));
    }
    assert forall|e: (usize, usize)| #[trigger] w.contains(e) implies w2.archetype(e) == w.archetype(e) by {
        assert(w1.contains(e));
    }
}

/// The entities whose tree values attaching `node` below `parent` may
/// change: `node`, `parent`, and the last child of `parent` if it has one.
pub open spec fn attach_touched<E: ?Sized>(
    w: WorldView<Tree<E>>,
    c: usize,
    parent: Entity<E>,
    node: Entity<E>,
) -> Set<(usize, usize)> {
    match tree(w, c, parent@).last_child {
        Some(l) => set![node@, parent@, l@],
        None => set![node@, parent@],
    }
}

/// Linking `node` in after the child `last` of `parent` changes no value
/// but the tree values of `last` and `node`; `last` keeps its parent and
/// children, and `node` keeps its children and gets `parent` as its parent.
proof fn lemma_linked_after_changes<E: ?Sized>(
    w: WorldView<Tree<E>>,
    c: usize,
    parent: Entity<E>,
    last: (usize, usize),
    node: Entity<E>,
)
    requires
        w.wf(),
        w.is_component(c),
        node_ok(w, c, last),
        node_ok(w, c, node@),
        last != node@,
    ensures
        changes_trees_of(w, linked_after(w, c, parent, last, node), c, set![last, node@]),
        linked_after(w, c, parent, last, node).wf(),
        node_ok(linked_after(w, c, parent, last, node), c, node@),
        node_ok(linked_after(w, c, parent, last, node), c, last),
        forall|f: (usize, usize)| #[trigger] node_ok(w, c, f) ==> node_ok(linked_after(w, c, parent, last, node), c, f),
        tree(linked_after(w, c, parent, last, node), c, last).parent == tree(w, c, last).parent,
        tree(linked_after(w, c, parent, last, node), c, last).last_child == tree(w, c, last).last_child,
        tree(linked_after(w, c, parent, last, node), c, node@).parent == Some(parent),
        tree(linked_after(w, c, parent, last, node), c, node@).last_child == tree(w, c, node@).last_child,
        forall|f: (usize, usize)|
            f != last && f != node@ ==> #[trigger] tree(linked_after(w, c, parent, last, node), c, f) == tree(w, c, f),
{
    let t1 = Tree { next_sibling: node, ..tree(w, c, last) };
    let w1 = with_tree(w, c, last, t1);
    lemma_with_tree(w, c, last, t1);
    lemma_with_tree_changes(w, c, last, t1);
    let t2 = Tree { parent: Some(parent), next_sibling: tree(w, c, last).next_sibling, ..tree(w1, c, node@) };
    lemma_with_tree(w1, c, node@, t2);
    lemma_with_tree_changes(w1, c, node@, t2);
    lemma_changes_trans(w, w1, with_tree(w1, c, node@, t2), c, set![last], set![node@]);
    assert(set![last].union(set![node@]) =~= set![last, node@]);
}

/// Attaching `node` below `parent`, first or last, changes no value but the
/// tree values of `node`, of `parent` and of the last child `parent` had;
/// `node` gets `parent` as its parent and keeps its children, `parent`
/// keeps its own parent and next sibling, and the former last child keeps
/// its parent and its children.
pub proof fn lemma_attach_changes<E: ?Sized>(
    w: WorldView<Tree<E>>,
    c: usize,
    parent: Entity<E>,
    node: Entity<E>,
)
    requires
        w.wf(),
        w.is_component(c),
        node_ok(w, c, node@),
        node_ok(w, c, parent@),
        node@ != parent@,
        tree(w, c, parent@).last_child matches Some(l) ==> node_ok(w, c, l@) && l@ != node@ && l@ != parent@,
    ensures
        changes_trees_of(w, attached_first(w, c, parent, node), c, attach_touched(w, c, parent, node)),
        changes_trees_of(w, attached_last(w, c, parent, node), c, attach_touched(w, c, parent, node)),
        tree(attached_first(w, c, parent, node), c, node@).parent == Some(parent),
        tree(attached_last(w, c, parent, node), c, node@).parent == Some(parent),
        tree(attached_first(w, c, parent, node), c, node@).last_child == tree(w, c, node@).last_child,
        tree(attached_last(w, c, parent, node), c, node@).last_child == tree(w, c, node@).last_child,
        tree(attached_first(w, c, parent, node), c, parent@).parent == tree(w, c, parent@).parent,
        tree(attached_last(w, c, parent, node), c, parent@).parent == tree(w, c, parent@).parent,
        tree(attached_first(w, c, parent, node), c, parent@).next_sibling == tree(w, c, parent@).next_sibling,
        tree(attached_last(w, c, parent, node), c, parent@).next_sibling == tree(w, c, parent@).next_sibling,
        tree(attached_last(w, c, parent, node), c, parent@).last_child == Some(node),
        tree(w, c, parent@).last_child is None ==> tree(attached_first(w, c, parent, node), c, parent@).last_child
            == Some(node),
        tree(w, c, parent@).last_child is Some ==> tree(attached_first(w, c, parent, node), c, parent@).last_child
            == tree(w, c, parent@).last_child,
        tree(w, c, parent@).last_child matches Some(l) ==> {
            &&& tree(attached_first(w, c, parent, node), c, l@).parent == tree(w, c, l@).parent
            &&& tree(attached_first(w, c, parent, node), c, l@).last_child == tree(w, c, l@).last_child
            &&& tree(attached_last(w, c, parent, node), c, l@).parent == tree(w, c, l@).parent
            &&& tree(attached_last(w, c, parent, node), c, l@).last_child == tree(w, c, l@).last_child
        },
{
    let tp = tree(w, c, parent@);
    match tp.last_child {
        Some(l) => {
            let w1 = linked_after(w, c, parent, l@, node);
            lemma_linked_after_changes(w, c, parent, l@, node);
            assert(tree(w1, c, parent@) == tp);
            let t3 = Tree { last_child: Some(node), ..tree(w1, c, parent@) };
            lemma_with_tree(w1, c, parent@, t3);
            lemma_with_tree_changes(w1, c, parent@, t3);
            lemma_changes_trans(w, w1, with_tree(w1, c, parent@, t3), c, set![l@, node@], set![parent@]);
            assert(set![l@, node@].union(set![parent@]) =~= attach_touched(w, c, parent, node));
        },
        None => {
            let t1 = Tree { parent: Some(parent), next_sibling: tree(w, c, node@).next_sibling, ..tree(w, c, node@) };
            let w1 = with_tree(w, c, node@, t1);
            lemma_with_tree(w, c, node@, t1);
            lemma_with_tree_changes(w, c, node@, t1);
            let t2 = Tree { last_child: Some(node), ..tree(w1, c, parent@) };
            lemma_with_tree(w1, c, parent@, t2);
            lemma_with_tree_changes(w1, c, parent@, t2);
            lemma_changes_trans(w, w1, with_tree(w1, c, parent@, t2), c, set![node@], set![parent@]);
            assert(set![node@].union(set![parent@]) =~= attach_touched(w, c, parent, node));
        },
    }
}

/// Attaching `node` below `parent` after its child `prev` changes no value
/// but the tree values of `node`, `parent` and `prev`; `node` gets `parent`
/// as its parent and keeps its children, `parent` keeps its own parent and
/// next sibling and gets `node` as its last child exactly when `prev` was
/// its last child, and `prev` keeps its parent and its children.
pub proof fn lemma_attach_after_changes<E: ?Sized>(
    w: WorldView<Tree<E>>,
    c: usize,
    parent: Entity<E>,
    prev: Entity<E>,
    node: Entity<E>,
)
    requires
        w.wf(),
        w.is_component(c),
        node_ok(w, c, node@),
        node_ok(w, c, parent@),
        node_ok(w, c, prev@),
        node@ != parent@,
        prev@ != node@,
        prev@ != parent@,
    ensures
        changes_trees_of(w, attached_after(w, c, parent, prev, node), c, set![node@, parent@, prev@]),
        tree(attached_after(w, c, parent, prev, node), c, node@).parent == Some(parent),
        tree(attached_after(w, c, parent, prev, node), c, node@).last_child == tree(w, c, node@).last_child,
        tree(attached_after(w, c, parent, prev, node), c, parent@).parent == tree(w, c, parent@).parent,
        tree(attached_after(w, c, parent, prev, node), c, parent@).next_sibling == tree(w, c, parent@).next_sibling,
        tree(w, c, parent@).last_child == Some(prev) ==> tree(attached_after(w, c, parent, prev, node), c, parent@).last_child
            == Some(node),
        tree(w, c, parent@).last_child != Some(prev) ==> tree(attached_after(w, c, parent, prev, node), c, parent@).last_child
            == tree(w, c, parent@).last_child,
        tree(attached_after(w, c, parent, prev, node), c, prev@).parent == tree(w, c, prev@).parent,
        tree(attached_after(w, c, parent, prev, node), c, prev@).last_child == tree(w, c, prev@).last_child,
        tree(attached_after(w, c, parent, prev, node), c, prev@).next_sibling == node,
{
    let w1 = linked_after(w, c, parent, prev@, node);
    lemma_linked_after_changes(w, c, parent, prev@, node);
    lemma_with_tree(w, c, prev@, Tree { next_sibling: node, ..tree(w, c, prev@) });
    assert(tree(w1, c, parent@) == tree(w, c, parent@));
    if tree(w1, c, parent@).last_child == Some(prev) {
        let t3 = Tree { last_child: Some(node), ..tree(w1, c, parent@) };
        lemma_with_tree(w1, c, parent@, t3);
        lemma_with_tree_changes(w1, c, parent@, t3);
        lemma_changes_trans(w, w1, with_tree(w1, c, parent@, t3), c, set![prev@, node@], set![parent@]);
        assert(set![prev@, node@].union(set![parent@]) =~= set![node@, parent@, prev@]);
    }
}

/// Detaching the only child `node` of its parent changes no value but the
/// tree values of `node` and of the parent; `node` keeps its children, and
/// the parent keeps its own parent and next sibling and has no child left.
pub proof fn lemma_detach_changes<E: ?Sized>(w: WorldView<Tree<E>>, c: usize, node: Entity<E>)
    requires
        w.wf(),
        w.is_component(c),
        node_ok(w, c, node@),
        tree(w, c, node@).parent matches Some(p) && node_ok(w, c, p@) && p@ != node@,
    ensures
        changes_trees_of(
            w,
            detached_only_child(w, c, node),
            c,
            set![node@, tree(w, c, node@).parent->Some_0@],
        ),
        tree(detached_only_child(w, c, node), c, node@).parent is None,
        tree(detached_only_child(w, c, node), c, node@).next_sibling == node,
        tree(detached_only_child(w, c, node), c, node@).last_child == tree(w, c, node@).last_child,
        tree(detached_only_child(w, c, node), c, tree(w, c, node@).parent->Some_0@).last_child is None,
        tree(detached_only_child(w, c, node), c, tree(w, c, node@).parent->Some_0@).parent == tree(
            w,
            c,
            tree(w, c, node@).parent->Some_0@,
        ).parent,
        tree(detached_only_child(w, c, node), c, tree(w, c, node@).parent->Some_0@).next_sibling == tree(
            w,
            c,
            tree(w, c, node@).parent->Some_0@,
        ).next_sibling,
{
    let p = tree(w, c, node@).parent->Some_0;
    let t1 = Tree { parent: None, next_sibling: node, ..tree(w, c, node@) };
    let w1 = with_tree(w, c, node@, t1);
    lemma_with_tree(w, c, node@, t1);
    lemma_with_tree_changes(w, c, node@, t1);
    let t2 = Tree { last_child: None, ..tree(w1, c, p@) };
    lemma_with_tree(w1, c, p@, t2);
    lemma_with_tree_changes(w1, c, p@, t2);
    lemma_changes_trans(w, w1, with_tree(w1, c, p@, t2), c, set![node@], set![p@]);
    assert(set![node@].union(set![p@]) =~= set![node@, p@]);
}

} // verus!
