//! An archetype-based entity-component world.
//!
//! Entities are grouped by the exact set of component types they carry; each
//! such group (an archetype) keeps one densely packed array per component
//! type, so that every row index is shared by all arrays of the archetype.
//! The world maps every live entity to its archetype and row, and keeps the
//! arrays, the entity lists and the location map consistent across insertion,
//! swap-removal and clearing.

pub mod compactable;
pub mod component;
pub mod entity;
pub mod storage;
pub mod world;

pub use entity::Entity;
pub use entity::EntityAllocator;
pub use world::ComponentData;
pub use world::ComponentSource;
pub use world::IntoComponentSource;
pub use world::LayoutFilter;
pub use world::SingleEntity;
pub use world::World;

