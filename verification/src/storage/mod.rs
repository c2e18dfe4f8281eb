pub mod buffer;
pub mod delta;
pub mod delta_codec;
pub mod field_codec;
pub mod table;
pub mod sparse;
pub mod layout;
