//! A verified Turing-machine engine: a transition table with a dynamic
//! alphabet and state count, a bounded tape with a relative cursor, and a
//! step-by-step execution machine, together with a plain-text persistence
//! format for tables.

pub mod charset;
pub mod table;
pub mod tape;
pub mod machine;
pub mod numerals;
pub mod running_machine;
pub mod serial;
pub mod task;

