//! Core of a source-level debugger for compiled native programs
//! (ELF/DWARF, x86-64 Linux).
//!
//! The crate holds the verified logic of the debugger: the interval index,
//! the type store, the DWARF table builder, the location index, the
//! breakpoint and trap manager, the stepping planner and the variable
//! codec.  Everything that talks to the operating system or reads raw
//! object files — process control, `/proc` memory access, the section
//! loader — lives outside and hands this crate plain values.

pub mod avl;
pub mod breakpoint;
pub mod codec;
pub mod consts;
pub mod dwarf_parser;
pub mod error;
pub mod evaluator;
pub mod exit_status_sentinel;
pub mod loc_finder;
pub mod location;
pub mod path;
pub mod printer;
pub mod ranges;
pub mod session;
pub mod string_parser;
pub mod tables;
pub mod text;
pub mod trap;
pub mod types;
pub mod var;
