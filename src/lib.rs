//! Textbook containers and an indexed binary-heap priority queue, each with
//! its behaviour stated as `requires` / `ensures` contracts and proved.

pub mod priority_queue;
pub mod queue;
pub mod stack;
pub mod dynamic_array;
pub mod union_find;
