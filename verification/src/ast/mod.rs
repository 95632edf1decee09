pub mod node;
pub mod refs;
pub mod parsing;
pub mod native;
pub mod analysis;
