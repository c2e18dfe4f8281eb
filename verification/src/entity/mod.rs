pub mod archetype;
pub mod registry;
