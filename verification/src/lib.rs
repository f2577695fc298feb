//! Assembler for a small-word CPU driven by an external opcode table.
//!
//! The pipeline: the opcode/macro table is parsed from a hardware-description
//! file, macros are flattened and expanded into the user source (pass 0),
//! every line is classified and given a program counter (pass 1), labels are
//! collected, and each line is encoded to hexadecimal machine words (pass 2).
//! Errors accumulate in a message list and never abort the pipeline.

pub mod files;
pub mod helper;
pub mod labels;
pub mod macros;
pub mod messages;
pub mod opcodes;
pub mod passes;
pub mod textscan;

pub use files::{CodeLine, LineType, Macro, Opcode};
pub use messages::{Message, MessageType, MsgList};
pub use passes::{get_pass1, get_pass2, write_binary_file, write_to_device};
