//! Processes (envs): the env table, the scheduler and the ELF loader.

pub mod elf_loader;
pub mod envs;
