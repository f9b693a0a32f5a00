//! Circular singly linked lists of entities, kept in a list component.
//!
//! Every entity of a list holds a [`List`] value naming the next entity; the
//! last entity names the first. The caller keeps the head of the list.
use vstd::prelude::*;
use crate::world::{World, WorldView, Component, Entity};

verus! {

/// The list component: the next entity of the entity's list.
#[verifier::reject_recursive_types(E)]
pub struct List<E: ?Sized + 'static> {
    pub next: Entity<E>,
}

/// The element after position `i` of the cycle `s`.
pub open spec fn succ(s: Seq<(usize, usize)>, i: int) -> (usize, usize) {
    if i + 1 < s.len() {
        s[i + 1]
    } else {
        s[0]
    }
}

/// The position before position `k` in a cycle of length `n`.
pub open spec fn pred(n: int, k: int) -> int {
    if k == 0 {
        n - 1
    } else {
        k - 1
    }
}

/// Entity `e` is alive, and its list component `c` belongs to its
/// archetype and has a value.
pub open spec fn linked<E: ?Sized>(w: WorldView<List<E>>, c: usize, e: (usize, usize)) -> bool {
    &&& w.contains(e)
    &&& w.member(c, w.archetype(e))
    &&& w.value(e, c) is Some
}

/// The entity that the list value of `e` names.
pub open spec fn next_of<E: ?Sized>(w: WorldView<List<E>>, c: usize, e: (usize, usize)) -> (usize, usize) {
    w.value(e, c)->Some_0.next@
}

/// The elements `s`, each once, form a cycle: each satisfies `ok`, `nx` of
/// each is the next one, and `nx` of the last is the first.
pub open spec fn cycle_of(
    ok: spec_fn((usize, usize)) -> bool,
    nx: spec_fn((usize, usize)) -> (usize, usize),
    s: Seq<(usize, usize)>,
) -> bool {
    &&& s.len() > 0
    &&& s.no_duplicates()
    &&& forall|i: int| #![trigger s[i]] 0 <= i < s.len() ==> ok(s[i]) && nx(s[i]) == succ(s, i)
}

/// The entities `s`, each once, form a list in the world: each names the
/// next one, and the last names the first.
pub open spec fn is_cycle<E: ?Sized>(w: WorldView<List<E>>, c: usize, s: Seq<(usize, usize)>) -> bool {
    cycle_of(|e: (usize, usize)| linked(w, c, e), |e: (usize, usize)| next_of(w, c, e), s)
}

/// The world after `node` was put in front of the list `s` whose head is
/// `head` (or made a list of its own when there is no head).
pub open spec fn list_inserted<E: ?Sized>(
    w: WorldView<List<E>>,
    c: usize,
    s: Seq<(usize, usize)>,
    node: Entity<E>,
    head: Option<Entity<E>>,
) -> WorldView<List<E>> {
    match head {
        None => w.set_value(node@, c, Some(List { next: node })),
        Some(h) => w.set_value(s.last(), c, Some(List { next: node })).set_value(
            node@,
            c,
            Some(List { next: h }),
        ),
    }
}

/// The world after `node` was taken out of the list `s`: its list value is
/// gone, and the entity before it names the entity after it.
pub open spec fn list_removed<E: ?Sized>(
    w: WorldView<List<E>>,
    c: usize,
    s: Seq<(usize, usize)>,
    node: (usize, usize),
) -> WorldView<List<E>> {
    let k = s.index_of(node);
    if s.len() == 1 {
        w.set_value(node, c, None)
    } else {
        w.set_value(node, c, None).set_value(s[pred(s.len() as int, k)], c, w.value(node, c))
    }
}

/// The head after `node` was taken out of the list `s`: none when the list
/// became empty, the entity after `node` when `node` was the head.
pub open spec fn head_removed<E: ?Sized>(
    w: WorldView<List<E>>,
    c: usize,
    s: Seq<(usize, usize)>,
    head: Option<Entity<E>>,
    node: (usize, usize),
) -> Option<Entity<E>> {
    if s.len() == 1 {
        None
    } else if head matches Some(h) && h@ == node {
        Some(w.value(node, c)->Some_0.next)
    } else {
        head
    }
}

/// The position reached after `j` steps from position `k` of a cycle of
/// length `n`.
spec fn walk(n: int, k: int, j: int) -> int {
    if k + j < n {
        k + j
    } else {
        k + j - n
    }
}

/// Follows the list `s` from `start` (at position `k`) to the entity whose
/// list value names `stop`, the entity at position `pred(n, m)` where `stop`
/// is at position `m`.
fn find_prev<E: ?Sized>(
    start: Entity<E>,
    stop: Entity<E>,
    world: &World<E, List<E>>,
    list_component: Component<E>,
    Ghost(s): Ghost<Seq<(usize, usize)>>,
    Ghost(k): Ghost<int>,
) -> (prev: Entity<E>)
    requires
        world.wf(),
        world@.is_component(list_component@),
        is_cycle(world@, list_component@, s),
        0 <= k < s.len(),
        s[k] == start@,
        s.contains(stop@),
    ensures
        prev@ == s[pred(s.len() as int, s.index_of(stop@))],
{
    let ghost n = s.len() as int;
    let ghost m = s.index_of(stop@);
    let ghost target = pred(n, m);
    let mut prev = start;
    let ghost mut idx: int = k;
    loop
        invariant
            world.wf(),
            world@.is_component(list_component@),
            is_cycle(world@, list_component@, s),
            n == s.len(),
            0 <= m < n,
            s[m] == stop@,
            target == pred(n, m),
            0 <= idx < n,
            prev@ == s[idx],
        ensures
            prev@ == s[target],
        decreases (if idx <= target { target - idx } else { target + n - idx }),
    {
        assert(linked(world@, list_component@, s[idx]));
        let next = prev.component(list_component, world).unwrap().next;
        proof {
            Entity::lemma_view_injective(next, stop);
        }
        if next == stop {
            proof {
                assert(next@ == succ(s, idx));
                if idx + 1 < n {
                    assert(s[idx + 1] == s[m]);
                    assert(idx + 1 == m);
                } else {
                    assert(s[0] == s[m]);
                    assert(m == 0);
                }
            }
            break;
        }
        proof {
            assert(idx != target) by {
                if idx == target {
                    if m == 0 {
                        assert(succ(s, idx) == s[0]);
                    } else {
                        assert(succ(s, idx) == s[m]);
                    }
                }
            }
            idx = if idx + 1 < n {
                idx + 1
            } else {
                0
            };
        }
        prev = next;
    }
    prev
}

impl<E: ?Sized> List<E> {
    /// Puts `node` in front of the list whose head is `head`, or makes it a
    /// list of its own when there is no head; `node` becomes the head.
    ///
    /// `node` must not have a list value yet; the entity before the head is
    /// found by following the list.
    pub fn insert(
        head: &mut Option<Entity<E>>,
        node: Entity<E>,
        world: &mut World<E, List<E>>,
        list_component: Component<E>,
    )
        requires
            old(world).wf(),
            old(world)@.is_component(list_component@),
            old(world)@.contains(node@),
            old(world)@.member(list_component@, old(world)@.archetype(node@)),
            old(world)@.value(node@, list_component@) is None,
            *old(head) matches Some(h) ==> exists|s: Seq<(usize, usize)>|
                is_cycle(old(world)@, list_component@, s) && s[0] == h@,
        ensures
            final(world).wf(),
            final(world).storage_kept(old(world)),
            *final(head) == Some(node),
            *old(head) is None ==> final(world)@ == list_inserted(
                old(world)@,
                list_component@,
                Seq::empty(),
                node,
                None,
            ),
            forall|s: Seq<(usize, usize)>|
                #[trigger] is_cycle(old(world)@, list_component@, s) && (*old(head) matches Some(h) && s[0] == h@)
                    ==> final(world)@ == list_inserted(old(world)@, list_component@, s, node, *old(head)),
    {
        let ghost old_world = world@;
        let c = list_component;
        proof {
            world.lemma_view_wf();
        }
        if let Some(head_entity) = *head {
            let ghost s = choose|s: Seq<(usize, usize)>| is_cycle(world@, c@, s) && s[0] == head_entity@;
            let prev = find_prev(head_entity, head_entity, world, c, Ghost(s), Ghost(0));
            proof {
                assert(s.index_of(head_entity@) == 0) by {
                    assert(s[0] == head_entity@);
                    assert(s.contains(head_entity@));
                }
                let last = s.len() - 1;
                assert(prev@ == s[last]);
                assert(linked(world@, c@, s[last]));
                // The node is not in the list: it has no list value yet.
                assert(prev@ != node@);
                old_world.lemma_set_value(prev@, c@, Some(List { next: node }));
            }
            match prev.component_mut(c, world) {
                Some(l) => {
                    l.next = node;
                },
                None => {},
            }
            node.add(c, world, List { next: head_entity });
            *head = Some(node);
            proof {
                assert forall|t: Seq<(usize, usize)>|
                    (#[trigger] is_cycle(old_world, c@, t) && t[0] == head_entity@) implies world@ == list_inserted(
                    old_world,
                    c@,
                    t,
                    node,
                    Some(head_entity),
                ) by {
                    lemma_cycle_unique(|e: (usize, usize)| linked(old_world, c@, e), |e: (usize, usize)| next_of(old_world, c@, e), s, t);
                }
            }
        } else {
            node.add(c, world, List { next: node });
            *head = Some(node);
        }
    }

    /// Takes `node` out of its list; when `node` was the head, the entity
    /// after it becomes the head, and when it was the only entity, there is
    /// no head any more.
    pub fn remove(
        head: &mut Option<Entity<E>>,
        node: Entity<E>,
        world: &mut World<E, List<E>>,
        list_component: Component<E>,
    )
        requires
            old(world).wf(),
            old(world)@.is_component(list_component@),
            exists|s: Seq<(usize, usize)>| is_cycle(old(world)@, list_component@, s) && s.contains(node@),
        ensures
            final(world).wf(),
            final(world).storage_kept(old(world)),
            forall|s: Seq<(usize, usize)>|
                #[trigger] is_cycle(old(world)@, list_component@, s) && s.contains(node@) ==> {
                    &&& final(world)@ == list_removed(old(world)@, list_component@, s, node@)
                    &&& *final(head) == head_removed(old(world)@, list_component@, s, *old(head), node@)
                },
    {
        let ghost old_world = world@;
        let ghost old_head = *head;
        let c = list_component;
        proof {
            world.lemma_view_wf();
        }
        let ghost s = choose|s: Seq<(usize, usize)>| is_cycle(world@, c@, s) && s.contains(node@);
        let ghost k = s.index_of(node@);
        let ghost n = s.len() as int;
        proof {
            assert(s[k] == node@);
        }
        let prev = find_prev(node, node, world, c, Ghost(s), Ghost(k));
        proof {
            Entity::lemma_view_injective(prev, node);
            assert(linked(world@, c@, s[k]));
        }
        if prev == node {
            proof {
                assert(pred(n, k) == k);
                if n > 1 {
                    assert(s[pred(n, k)] != s[k]);
                }
            }
            let _ = node.remove_component(c, world);
            *head = None;
        } else {
            proof {
                assert(n > 1);
                assert(linked(world@, c@, s[pred(n, k)]));
                old_world.lemma_set_value(node@, c@, None);
            }
            let removed = node.remove_component(c, world);
            let next = removed.next;
            match prev.component_mut(c, world) {
                Some(l) => {
                    l.next = next;
                },
                None => {},
            }
            proof {
                Entity::lemma_view_injective(old_head->Some_0, node);
            }
            if *head == Some(node) {
                *head = Some(next);
            }
        }
        proof {
            assert forall|t: Seq<(usize, usize)>|
                #[trigger] is_cycle(old_world, c@, t) && t.contains(node@) implies {
                &&& world@ == list_removed(old_world, c@, t, node@)
                &&& *head == head_removed(old_world, c@, t, old_head, node@)
            } by {
                lemma_cycle_rotation(|e: (usize, usize)| linked(old_world, c@, e), |e: (usize, usize)| next_of(old_world, c@, e), s, t, node@);
            }
        }
    }
}

/// Two cycles that start at the same element agree on their first `i + 1`
/// elements.
proof fn lemma_cycle_prefix(
    ok: spec_fn((usize, usize)) -> bool,
    nx: spec_fn((usize, usize)) -> (usize, usize),
    s: Seq<(usize, usize)>,
    t: Seq<(usize, usize)>,
    i: int,
)
    requires
        cycle_of(ok, nx, s),
        cycle_of(ok, nx, t),
        s[0] == t[0],
        0 <= i < s.len(),
        i < t.len(),
    ensures
        s[i] == t[i],
    decreases i,
{
    if i > 0 {
        lemma_cycle_prefix(ok, nx, s, t, i - 1);
        assert(nx(s[i - 1]) == succ(s, i - 1));
        assert(nx(t[i - 1]) == succ(t, i - 1));
    }
}

/// A cycle no longer than another that starts at the same element is no
/// shorter.
proof fn lemma_cycle_len(
    ok: spec_fn((usize, usize)) -> bool,
    nx: spec_fn((usize, usize)) -> (usize, usize),
    s: Seq<(usize, usize)>,
    t: Seq<(usize, usize)>,
)
    requires
        cycle_of(ok, nx, s),
        cycle_of(ok, nx, t),
        s[0] == t[0],
        s.len() <= t.len(),
    ensures
        s.len() == t.len(),
{
    if s.len() < t.len() {
        let l = s.len() - 1;
        lemma_cycle_prefix(ok, nx, s, t, l);
        assert(nx(s[l]) == succ(s, l));
        assert(nx(t[l]) == succ(t, l));
        assert(t[l + 1] == t[0]);
    }
}

/// Two cycles that start at the same element are the same cycle.
#[verifier::spinoff_prover]
#[verifier::rlimit(40)]
pub proof fn lemma_cycle_unique(
    ok: spec_fn((usize, usize)) -> bool,
    nx: spec_fn((usize, usize)) -> (usize, usize),
    s: Seq<(usize, usize)>,
    t: Seq<(usize, usize)>,
)
    requires
        cycle_of(ok, nx, s),
        cycle_of(ok, nx, t),
        s[0] == t[0],
    ensures
        s == t,
{
    if s.len() <= t.len() {
        lemma_cycle_len(ok, nx, s, t);
    } else {
        lemma_cycle_len(ok, nx, t, s);
    }
    assert forall|i: int| 0 <= i < s.len() implies s[i] == t[i] by {
        lemma_cycle_prefix(ok, nx, s, t, i);
    }
    assert(s =~= t);
}

/// The sequence `s` read from its position `k` on.
pub open spec fn rotate(s: Seq<(usize, usize)>, k: int) -> Seq<(usize, usize)> {
    s.subrange(k, s.len() as int) + s.subrange(0, k)
}

/// Reading a sequence from position `k` on: each position `i` holds the
/// element at position `walk(n, k, i)`, and no element twice.
#[verifier::spinoff_prover]
#[verifier::rlimit(40)]
proof fn lemma_rotate_seq(s: Seq<(usize, usize)>, k: int)
    requires
        s.no_duplicates(),
        0 <= k < s.len(),
    ensures
        rotate(s, k).len() == s.len(),
        forall|i: int| 0 <= i < s.len() ==> #[trigger] rotate(s, k)[i] == s[walk(s.len() as int, k, i)],
        rotate(s, k).no_duplicates(),
{
    let n = s.len() as int;
    let r = rotate(s, k);
    assert forall|i: int| 0 <= i < n implies #[trigger] r[i] == s[walk(n, k, i)] by {}
    assert forall|i: int, j: int| 0 <= i < n && 0 <= j < n && i != j implies r[i] != r[j] by {
        assert(r[i] == s[walk(n, k, i)]);
        assert(r[j] == s[walk(n, k, j)]);
    }
}

/// A cycle read from any of its positions on is a cycle.
#[verifier::spinoff_prover]
#[verifier::rlimit(40)]
pub proof fn lemma_rotate_cycle(
    ok: spec_fn((usize, usize)) -> bool,
    nx: spec_fn((usize, usize)) -> (usize, usize),
    s: Seq<(usize, usize)>,
    k: int,
)
    requires
        cycle_of(ok, nx, s),
        0 <= k < s.len(),
    ensures
        cycle_of(ok, nx, rotate(s, k)),
        rotate(s, k)[0] == s[k],
        rotate(s, k).len() == s.len(),
        rotate(s, k).last() == s[pred(s.len() as int, k)],
{
    let n = s.len() as int;
    let r = rotate(s, k);
    lemma_rotate_seq(s, k);
    assert forall|i: int| #![trigger r[i]] 0 <= i < n implies ok(r[i]) && nx(r[i]) == succ(r, i) by {
        let x = walk(n, k, i);
        assert(r[i] == s[x]);
        assert(ok(s[x]) && nx(s[x]) == succ(s, x));
        if i + 1 < n {
            assert(r[i + 1] == s[walk(n, k, i + 1)]);
        } else {
            assert(r[0] == s[walk(n, k, 0)]);
        }
    }
    assert(r[0] == s[walk(n, k, 0)]);
    assert(r[n - 1] == s[walk(n, k, n - 1)]);
}

/// Two cycles that hold the same element have the same length and the same
/// element before it.
pub proof fn lemma_cycle_rotation(
    ok: spec_fn((usize, usize)) -> bool,
    nx: spec_fn((usize, usize)) -> (usize, usize),
    s: Seq<(usize, usize)>,
    t: Seq<(usize, usize)>,
    node: (usize, usize),
)
    requires
        cycle_of(ok, nx, s),
        cycle_of(ok, nx, t),
        s.contains(node),
        t.contains(node),
    ensures
        s.len() == t.len(),
        s[pred(s.len() as int, s.index_of(node))] == t[pred(t.len() as int, t.index_of(node))],
{
    let ks = s.index_of(node);
    let kt = t.index_of(node);
    lemma_rotate_cycle(ok, nx, s, ks);
    lemma_rotate_cycle(ok, nx, t, kt);
    lemma_cycle_unique(ok, nx, rotate(s, ks), rotate(t, kt));
}

/// Whether entity `node` can join a list: it is alive, and the list
/// component belongs to its archetype and has no value yet.
pub open spec fn can_join<E: ?Sized>(w: WorldView<List<E>>, c: usize, node: (usize, usize)) -> bool {
    &&& w.contains(node)
    &&& w.member(c, w.archetype(node))
    &&& w.value(node, c) is None
}

/// An entity of a list whose world changed only elsewhere is still linked
/// to the same next entity.
proof fn lemma_linked_frame<E: ?Sized>(
    w: WorldView<List<E>>,
    c: usize,
    e: (usize, usize),
    c2: usize,
    v: Option<List<E>>,
    f: (usize, usize),
)
    requires
        w.wf(),
        w.contains(e),
        w.is_component(c2),
        w.member(c2, w.archetype(e)),
        f != e,
        linked(w, c, f),
    ensures
        linked(w.set_value(e, c2, v), c, f),
        next_of(w.set_value(e, c2, v), c, f) == next_of(w, c, f),
{
    w.lemma_set_value(e, c2, v);
}

/// The entity at the position where `node` sits in a list is `node` only.
proof fn lemma_index_of_unique(s: Seq<(usize, usize)>, i: int)
    requires
        s.no_duplicates(),
        0 <= i < s.len(),
    ensures
        s.index_of(s[i]) == i,
{
    assert(s.contains(s[i]));
}

/// Putting an entity that can join a list in front of it gives a list that
/// starts with the entity and goes on with the old list.
#[verifier::spinoff_prover]
#[verifier::rlimit(40)]
pub proof fn lemma_insert_keeps_cycle<E: ?Sized>(
    w: WorldView<List<E>>,
    c: usize,
    s: Seq<(usize, usize)>,
    node: Entity<E>,
    head: Option<Entity<E>>,
)
    requires
        w.wf(),
        w.is_component(c),
        can_join(w, c, node@),
        head matches Some(h) ==> is_cycle(w, c, s) && s[0] == h@,
    ensures
        is_cycle(
            list_inserted(w, c, s, node, head),
            c,
            if head is Some {
                seq![node@] + s
            } else {
                seq![node@]
            },
        ),
{
    let a = w.archetype(node@);
    match head {
        None => {
            let w1 = w.set_value(node@, c, Some(List { next: node }));
            w.lemma_set_value(node@, c, Some(List { next: node }));
            let t = seq![node@];
            assert(linked(w1, c, t[0]));
        },
        Some(h) => {
            let n = s.len() as int;
            let last = s[n - 1];
            assert(linked(w, c, s[n - 1]));
            assert(next_of(w, c, s[n - 1]) == succ(s, n - 1));
            // The node has no list value, so it is not in the list.
            assert(!s.contains(node@)) by {
                if s.contains(node@) {
                    let i = s.index_of(node@);
                    assert(linked(w, c, s[i]));
                }
            }
            let w1 = w.set_value(last, c, Some(List { next: node }));
            w.lemma_set_value(last, c, Some(List { next: node }));
            let w2 = w1.set_value(node@, c, Some(List { next: h }));
            assert(w1.entities[node@] == w.entities[node@]);
            assert(w1.value(node@, c) is None);
            w1.lemma_set_value(node@, c, Some(List { next: h }));
            let t = seq![node@] + s;
            assert(t.no_duplicates()) by {
                assert forall|i: int, j: int| 0 <= i < t.len() && 0 <= j < t.len() && i != j implies t[i] != t[j] by {
                    if i == 0 {
                        assert(t[j] == s[j - 1]);
                    } else if j == 0 {
                        assert(t[i] == s[i - 1]);
                    } else {
                        assert(t[i] == s[i - 1]);
                        assert(t[j] == s[j - 1]);
                    }
                }
            }
            assert forall|i: int| #![trigger t[i]] 0 <= i < t.len() implies linked(w2, c, t[i]) && next_of(w2, c, t[i])
                == succ(t, i) by {
                if i == 0 {
                    assert(t[1] == s[0]);
                } else {
                    assert(t[i] == s[i - 1]);
                    assert(linked(w, c, s[i - 1]) && next_of(w, c, s[i - 1]) == succ(s, i - 1));
                    if i - 1 == n - 1 {
                        assert(t[i] == last);
                    } else {
                        lemma_linked_frame(w, c, last, c, Some(List { next: node }), s[i - 1]);
                        assert(t[i + 1] == s[i]);
                    }
                    lemma_linked_frame(w1, c, node@, c, Some(List { next: h }), s[i - 1]);
                }
            }
        },
    }
}

/// Skipping the element at position `k` of a cycle of two or more: when the
/// element before it now leads to the element after it, and every other
/// element is as before, the rest is a cycle.
#[verifier::spinoff_prover]
#[verifier::rlimit(40)]
proof fn lemma_cycle_skip(
    ok: spec_fn((usize, usize)) -> bool,
    nx: spec_fn((usize, usize)) -> (usize, usize),
    ok2: spec_fn((usize, usize)) -> bool,
    nx2: spec_fn((usize, usize)) -> (usize, usize),
    s: Seq<(usize, usize)>,
    k: int,
)
    requires
        cycle_of(ok, nx, s),
        s.len() > 1,
        0 <= k < s.len(),
        forall|i: int|
            0 <= i < s.len() && i != k ==> #[trigger] ok2(s[i]) && nx2(s[i]) == if i == pred(
                s.len() as int,
                k,
            ) {
                nx(s[k])
            } else {
                nx(s[i])
            },
    ensures
        cycle_of(ok2, nx2, s.remove(k)),
{
    let n = s.len() as int;
    let p = pred(n, k);
    let t = s.remove(k);
    assert(t.no_duplicates()) by {
        assert forall|i: int, j: int| 0 <= i < t.len() && 0 <= j < t.len() && i != j implies t[i] != t[j] by {
            let si = if i < k { i } else { i + 1 };
            let sj = if j < k { j } else { j + 1 };
            assert(t[i] == s[si]);
            assert(t[j] == s[sj]);
        }
    }
    assert(nx(s[k]) == succ(s, k));
    assert forall|i: int| #![trigger t[i]] 0 <= i < t.len() implies ok2(t[i]) && nx2(t[i]) == succ(t, i) by {
        let si = if i < k { i } else { i + 1 };
        assert(t[i] == s[si]);
        assert(ok2(s[si]));
        assert(nx(s[si]) == succ(s, si));
        if si == p {
            if k == 0 {
                assert(t[0] == s[1]);
            } else if k < n - 1 {
                assert(t[i + 1] == s[k + 1]);
            } else {
                assert(t[0] == s[0]);
            }
        } else {
            if si + 1 < n {
                assert(t[i + 1] == s[si + 1]);
            } else {
                assert(t[0] == s[0]);
            }
        }
    }
}

/// Taking an entity out of a list of two or more entities leaves the list
/// without the entity.
#[verifier::spinoff_prover]
#[verifier::rlimit(40)]
pub proof fn lemma_remove_keeps_cycle<E: ?Sized>(
    w: WorldView<List<E>>,
    c: usize,
    s: Seq<(usize, usize)>,
    node: (usize, usize),
)
    requires
        w.wf(),
        w.is_component(c),
        is_cycle(w, c, s),
        s.contains(node),
        s.len() > 1,
    ensures
        is_cycle(list_removed(w, c, s, node), c, s.remove(s.index_of(node))),
{
    let n = s.len() as int;
    let k = s.index_of(node);
    let p = pred(n, k);
    let prev = s[p];
    assert(linked(w, c, s[k]) && next_of(w, c, s[k]) == succ(s, k));
    assert(linked(w, c, s[p]) && next_of(w, c, s[p]) == succ(s, p));
    assert(prev != node);
    let w1 = w.set_value(node, c, None);
    w.lemma_set_value(node, c, None);
    let w2 = w1.set_value(prev, c, w.value(node, c));
    assert(w1.entities[prev] == w.entities[prev]);
    w1.lemma_set_value(prev, c, w.value(node, c));
    assert forall|i: int| 0 <= i < s.len() && i != k implies #[trigger] linked(w2, c, s[i]) && next_of(w2, c, s[i])
        == if i == p {
        next_of(w, c, s[k])
    } else {
        next_of(w, c, s[i])
    } by {
        assert(linked(w, c, s[i]));
        lemma_linked_frame(w, c, node, c, None, s[i]);
        if i != p {
            lemma_linked_frame(w1, c, prev, c, w.value(node, c), s[i]);
        }
    }
    lemma_cycle_skip(
        |e: (usize, usize)| linked(w, c, e),
        |e: (usize, usize)| next_of(w, c, e),
        |e: (usize, usize)| linked(w2, c, e),
        |e: (usize, usize)| next_of(w2, c, e),
        s,
        k,
    );
}

/// Putting an entity in front of a list and taking it out again gives the
/// world and the head back.
#[verifier::spinoff_prover]
#[verifier::rlimit(40)]
pub proof fn lemma_insert_then_remove<E: ?Sized>(
    w: WorldView<List<E>>,
    c: usize,
    s: Seq<(usize, usize)>,
    node: Entity<E>,
    head: Option<Entity<E>>,
)
    requires
        w.wf(),
        w.is_component(c),
        can_join(w, c, node@),
        head matches Some(h) ==> is_cycle(w, c, s) && s[0] == h@,
    ensures
        ({
            let t = if head is Some {
                seq![node@] + s
            } else {
                seq![node@]
            };
            let w1 = list_inserted(w, c, t.drop_first(), node, head);
            &&& list_removed(w1, c, t, node@) == w
            &&& head_removed(w1, c, t, Some(node), node@) == head
        }),
{
    lemma_insert_keeps_cycle(w, c, s, node, head);
    match head {
        None => {
            let t = seq![node@];
            assert(t.drop_first() =~= Seq::<(usize, usize)>::empty());
            w.lemma_add_then_remove(node@, c, List { next: node });
            w.lemma_set_value(node@, c, Some(List { next: node }));
            w.set_value(node@, c, Some(List { next: node })).lemma_set_value_twice(
                node@,
                c,
                Some(List { next: node }),
                None,
            );
        },
        Some(h) => {
            let t = seq![node@] + s;
            assert(t.drop_first() =~= s);
            let n = s.len() as int;
            let last = s[n - 1];
            assert(linked(w, c, s[n - 1]));
            assert(next_of(w, c, s[n - 1]) == succ(s, n - 1));
            let old_last = w.value(last, c)->Some_0;
            Entity::lemma_view_injective(old_last.next, h);
            assert(w.value(last, c) == Some(List { next: h }));
            let a_v = Some(List { next: node });
            let b_v = Some(List { next: h });
            let w1 = w.set_value(last, c, a_v);
            w.lemma_set_value(last, c, a_v);
            assert(w1.entities[node@] == w.entities[node@]);
            let w2 = w1.set_value(node@, c, b_v);
            w1.lemma_set_value(node@, c, b_v);
            assert(t.no_duplicates());
            lemma_index_of_unique(t, 0);
            assert(t[t.len() - 1] == last);
            assert(w2.value(node@, c) == b_v);
            // Removing: the node's value goes, then the last entity gets the
            // node's value back.
            let w3 = w2.set_value(node@, c, None);
            w1.lemma_set_value_twice(node@, c, b_v, None);
            assert(w3 == w1.set_value(node@, c, None));
            assert(last != node@);
            w.lemma_set_value_commute(last, c, a_v, node@, c, None);
            let w0 = w.set_value(node@, c, None);
            w.lemma_set_same_value(node@, c);
            assert(w0 == w);
            assert(w3 == w.set_value(last, c, a_v));
            w.lemma_set_value_twice(last, c, a_v, b_v);
            w.lemma_set_same_value(last, c);
            assert(w3.set_value(last, c, b_v) == w);
            assert(list_removed(w2, c, t, node@) == w3.set_value(last, c, b_v));
        },
    }
}


/// The element of a cycle other than the one at position `k` is still there
/// after that one is taken out.
proof fn lemma_remove_contains(s: Seq<(usize, usize)>, k: int, x: (usize, usize))
    requires
        0 <= k < s.len(),
        s.contains(x),
        x != s[k],
    ensures
        s.remove(k).contains(x),
{
    let j = s.index_of(x);
    if j < k {
        assert(s.remove(k)[j] == x);
    } else {
        assert(s.remove(k)[j - 1] == x);
    }
}

/// The entity before `node` in the list `s`.
pub open spec fn before_of(s: Seq<(usize, usize)>, node: (usize, usize)) -> (usize, usize) {
    s[pred(s.len() as int, s.index_of(node))]
}

/// What taking `node` out of the list `s` does, told by what can be read
/// of the world and the head afterwards:
/// - no entity, component or layout comes or goes, and no archetype changes;
/// - `node` has no list value any more;
/// - the only other value that changes is the list value of the entity
///   before `node`, which now names the entity after `node`;
/// - the rest of the entities, in the same order, form a list;
/// - the head stays where it was unless `node` was the head: then the head
///   moves to the entity after `node`; when `node` was the only entity of
///   the list, there is no head any more;
/// - a head that was in the list before is in the rest of it afterwards.
#[verifier::spinoff_prover]
#[verifier::rlimit(40)]
pub proof fn lemma_remove_result<E: ?Sized>(
    w: WorldView<List<E>>,
    c: usize,
    s: Seq<(usize, usize)>,
    head: Option<Entity<E>>,
    node: (usize, usize),
)
    requires
        w.wf(),
        w.is_component(c),
        is_cycle(w, c, s),
        s.contains(node),
    ensures
        list_removed(w, c, s, node).wf(),
        list_removed(w, c, s, node).layouts == w.layouts,
        list_removed(w, c, s, node).entities.dom() == w.entities.dom(),
        forall|e: (usize, usize)|
            #[trigger] w.contains(e) ==> list_removed(w, c, s, node).archetype(e) == w.archetype(e),
        list_removed(w, c, s, node).value(node, c) is None,
        forall|e: (usize, usize), d: usize|
            w.contains(e) && w.is_component(d) && (d != c || (e != node && e != before_of(s, node)))
                ==> #[trigger] list_removed(w, c, s, node).value(e, d) == w.value(e, d),
        s.len() > 1 ==> before_of(s, node) != node,
        s.len() > 1 ==> linked(list_removed(w, c, s, node), c, before_of(s, node)),
        s.len() > 1 ==> next_of(list_removed(w, c, s, node), c, before_of(s, node)) == next_of(w, c, node),
        s.len() > 1 ==> is_cycle(list_removed(w, c, s, node), c, s.remove(s.index_of(node))),
        s.len() == 1 ==> head_removed(w, c, s, head, node) is None,
        s.len() > 1 && (head matches Some(h) && h@ != node) ==> head_removed(w, c, s, head, node) == head,
        s.len() > 1 && (head matches Some(h) && h@ == node) ==> (head_removed(w, c, s, head, node) matches Some(
            n,
        ) && n@ == next_of(w, c, node)),
        head is None ==> head_removed(w, c, s, head, node) is None,
        (head matches Some(h) && s.contains(h@)) ==> (head_removed(w, c, s, head, node) matches Some(n)
            ==> s.remove(s.index_of(node)).contains(n@)),
{
    let n = s.len() as int;
    let k = s.index_of(node);
    let p = pred(n, k);
    let before = s[p];
    let rest = s.remove(k);
    assert(s[k] == node);
    assert(linked(w, c, s[k]) && next_of(w, c, s[k]) == succ(s, k));
    let w1 = w.set_value(node, c, None);
    w.lemma_set_value(node, c, None);
    if n == 1 {
        assert(before == node);
        assert forall|e: (usize, usize), d: usize|
            w.contains(e) && w.is_component(d) && (d != c || (e != node && e != before)) implies #[trigger] w1.value(
            e,
            d,
        ) == w.value(e, d) by {
            if e != node {
                assert(w1.entities[e] == w.entities[e]);
            }
        }
    } else {
        assert(linked(w, c, s[p]) && next_of(w, c, s[p]) == succ(s, p));
        assert(before != node);
        assert(w1.entities[before] == w.entities[before]);
        let v = w.value(node, c);
        let w2 = w1.set_value(before, c, v);
        w1.lemma_set_value(before, c, v);
        assert(w2.entities[node] == w1.entities[node]);
        assert forall|e: (usize, usize), d: usize|
            w.contains(e) && w.is_component(d) && (d != c || (e != node && e != before)) implies #[trigger] w2.value(
            e,
            d,
        ) == w.value(e, d) by {
            if e == node {
                assert(w1.value(e, d) == w.value(e, d));
            } else if e == before {
                assert(w1.value(e, d) == w.value(e, d));
            } else {
                assert(w1.entities[e] == w.entities[e]);
                assert(w2.entities[e] == w1.entities[e]);
            }
        }
        lemma_remove_keeps_cycle(w, c, s, node);
        // The entity after `node` is in the rest of the list.
        let after = succ(s, k);
        assert(after != node) by {
            if k + 1 < n {
                assert(s[k + 1] != s[k]);
            } else {
                assert(s[0] != s[k]);
            }
        }
        assert(s.contains(after)) by {
            if k + 1 < n {
                assert(s[k + 1] == after);
            } else {
                assert(s[0] == after);
            }
        }
        lemma_remove_contains(s, k, after);
        if let Some(h) = head {
            if s.contains(h@) && h@ != node {
                lemma_remove_contains(s, k, h@);
            }
        }
    }
}

/// What putting `node` in front of the list `s` with head `head` does, told
/// by what can be read of the world afterwards:
/// - no entity, component or layout comes or goes, and no archetype changes;
/// - `node` names the old head, or itself when there was no head;
/// - the only other value that changes is the list value of the last entity
///   of the list, which now names `node`;
/// - `node` followed by the old list forms a list.
#[verifier::spinoff_prover]
#[verifier::rlimit(40)]
pub proof fn lemma_insert_result<E: ?Sized>(
    w: WorldView<List<E>>,
    c: usize,
    s: Seq<(usize, usize)>,
    node: Entity<E>,
    head: Option<Entity<E>>,
)
    requires
        w.wf(),
        w.is_component(c),
        can_join(w, c, node@),
        head matches Some(h) ==> is_cycle(w, c, s) && s[0] == h@,
    ensures
        list_inserted(w, c, s, node, head).wf(),
        list_inserted(w, c, s, node, head).layouts == w.layouts,
        list_inserted(w, c, s, node, head).entities.dom() == w.entities.dom(),
        forall|e: (usize, usize)|
            #[trigger] w.contains(e) ==> list_inserted(w, c, s, node, head).archetype(e) == w.archetype(e),
        linked(list_inserted(w, c, s, node, head), c, node@),
        head is None ==> next_of(list_inserted(w, c, s, node, head), c, node@) == node@,
        head matches Some(h) ==> next_of(list_inserted(w, c, s, node, head), c, node@) == h@,
        head is Some ==> s.last() != node@,
        head is Some ==> next_of(list_inserted(w, c, s, node, head), c, s.last()) == node@,
        forall|e: (usize, usize), d: usize|
            w.contains(e) && w.is_component(d) && (d != c || (e != node@ && (head is None || e != s.last())))
                ==> #[trigger] list_inserted(w, c, s, node, head).value(e, d) == w.value(e, d),
        is_cycle(
            list_inserted(w, c, s, node, head),
            c,
            if head is Some {
                seq![node@] + s
            } else {
                seq![node@]
            },
        ),
{
    lemma_insert_keeps_cycle(w, c, s, node, head);
    match head {
        None => {
            let w1 = w.set_value(node@, c, Some(List { next: node }));
            w.lemma_set_value(node@, c, Some(List { next: node }));
            assert forall|e: (usize, usize), d: usize|
                w.contains(e) && w.is_component(d) && (d != c || e != node@) implies #[trigger] w1.value(e, d)
                == w.value(e, d) by {
                if e != node@ {
                    assert(w1.entities[e] == w.entities[e]);
                }
            }
        },
        Some(h) => {
            let n = s.len() as int;
            let last = s[n - 1];
            assert(linked(w, c, s[n - 1]));
            assert(last != node@);
            let a_v = Some(List { next: node });
            let b_v = Some(List { next: h });
            let w1 = w.set_value(last, c, a_v);
            w.lemma_set_value(last, c, a_v);
            assert(w1.entities[node@] == w.entities[node@]);
            let w2 = w1.set_value(node@, c, b_v);
            w1.lemma_set_value(node@, c, b_v);
            assert(w2.entities[last] == w1.entities[last]);
            assert forall|e: (usize, usize), d: usize|
                w.contains(e) && w.is_component(d) && (d != c || (e != node@ && e != last)) implies #[trigger] w2.value(
                e,
                d,
            ) == w.value(e, d) by {
                if e == node@ {
                    assert(w1.value(e, d) == w.value(e, d));
                } else if e == last {
                    assert(w1.value(e, d) == w.value(e, d));
                } else {
                    assert(w1.entities[e] == w.entities[e]);
                    assert(w2.entities[e] == w1.entities[e]);
                }
            }
        },
    }
}

} // verus!
