//! Parser construction for context-free grammars: left-recursion elimination,
//! FIRST / FOLLOW / PREDICT sets, an LL(1) table with its driver, and the LR(1)
//! canonical collection with ACTION / GOTO tables and a shift/reduce driver.
pub mod grammar;
pub mod indexed;
pub mod left_recursion;
pub mod sets;
pub mod lr1;
pub mod ll1;
