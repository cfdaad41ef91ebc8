pub mod bytes;
pub mod class;
pub mod codec;
pub mod field;
pub mod inspect;
pub mod memory;
pub mod project;
pub mod registry;
pub mod resolver;
mod text;
