pub mod queue;
pub mod stack;
