# ooecs

An entity-component-system, verified with Verus, in which every component
also defines an archetype: the component together with the chain of its base
components. Every entity belongs to one archetype and holds one value per
component of it.

A world holds values of one type `V`; a world that holds several kinds of
values uses an enum for `V`.

## Layout

- `src/layout.rs`: the layout of an archetype row (where each component's
  value lies, the row size and alignment), computed in `usize` arithmetic and
  proved against its mathematical definition.
- `src/slab.rs`: a vector of slots with an intrusive free list; the most
  recently vacated slot is reused first.
- `src/world.rs`: `World`, `Component` and `Entity`: registration of
  components, creation and dropping of entities, adding, reading, changing and
  taking out component values. Contracts speak of `WorldView`, the layouts of
  the registered archetypes and the values of the live entities. The laws of
  the world (soundness of every archetype layout, room in every row for the
  free-list link, read after write, undoing an addition or a creation, reuse
  of vacated rows, no entity ID given out again before the guard counter
  wraps) are proof functions there.
- `src/list.rs`: circular lists of entities kept in a `List` component, with
  the laws that insertion and removal keep a list a list and undo each other.
- `src/tree.rs`: trees of entities kept in a `Tree` component, with the laws
  of attaching (where the new child goes, and that a forest stays a forest
  with parent links free of cycles), of detaching an only child, and of
  destroying subtrees.
- `tests/`: tests of the library on concrete values.
