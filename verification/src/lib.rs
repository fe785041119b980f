//! Verified core of the crustlet UEFI boot loader: ELF image parsing and
//! loading plans, ACPI table lookup, boot configuration parsing and the
//! text that describes parsed headers.

mod bytes;
pub mod acpi;
pub mod elf;
pub mod info;
pub mod parser;
mod utf8;

pub use elf::{ElfError, ElfHeader, ProgramHeader, ProgramHeaderTable, SectionHeader, SegmentCopy};
pub use parser::{parse_env, EnvConfig};
