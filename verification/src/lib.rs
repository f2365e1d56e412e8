//! Core state and arithmetic of an x86 emulator: the EFLAGS register and the
//! flag rules of the integer instructions, the x87 floating point unit with its
//! 80-bit registers, little endian memory regions and the lookup cache.

pub mod exception_type;
pub mod flags;
pub mod fpu;
pub mod kuser_shared;
pub mod maps;
pub mod structures;
pub mod winapi64;
