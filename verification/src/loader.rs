//! Loading of program images handed over by the boot collaborator.

pub mod elf;

pub use self::elf::load_elf;
