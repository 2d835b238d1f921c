pub mod bag;
pub mod queue;
pub mod quick_find;
pub mod stack;
pub mod uf;
