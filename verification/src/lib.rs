//! An entity-component-system in which every component also defines an
//! archetype: the component together with the chain of its base components.
pub mod layout;
pub mod slab;
pub mod world;
pub mod list;
pub mod tree;

pub use world::{World, Component, Entity};
pub use list::List;
pub use tree::Tree;
