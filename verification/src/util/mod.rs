//! General purpose building blocks.
pub mod executor;
pub mod pairs;
pub mod priority;
pub mod table;
pub mod text;
pub mod tick_loop;
pub mod waker;
