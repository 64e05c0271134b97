//! The operations that the container kinds have in common.
pub mod data;
pub mod debug;
pub mod memory;

pub use data::Append;
pub use data::Insert;
pub use debug::ToStr;
pub use memory::RefC;
pub use memory::RefCopy;
