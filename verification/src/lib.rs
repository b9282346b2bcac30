//! An emulator core for Knuth's MIX machine: packed signed-magnitude words,
//! field-specification addressing, and the arithmetic instruction family.

pub mod arch_util;
pub mod mix_core;
pub mod mix_fmt;
pub mod mix_parse;
pub mod mix_types;
pub mod mix_util;
