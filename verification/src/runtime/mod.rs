pub mod values;
pub mod slot;
pub mod heap;
pub mod mark;
pub mod stack;
pub mod memory;
pub mod hash;
pub mod exec;
