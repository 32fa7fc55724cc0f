//! A compiler front end and stepping machine for an eight-command tape
//! language.
//!
//! `opcode` tokenizes a source text and matches its loops; `ir` folds runs
//! of identical commands into counted instructions and resolves each loop
//! into a pair of jumps; `jit` lays out the native code of a folded
//! program, naming the label sites of each loop; `machine` executes either
//! form one instruction at a time and leaves input and output to its host;
//! `simulation` shows that the folded form does what the tokens do.

pub mod error;
pub mod opcode;
pub mod ir;
pub mod machine;
pub mod jit;
pub mod simulation;
