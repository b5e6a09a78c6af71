//! A model of a small RISC-V (SV39) kernel: physical memory and page tables,
//! an in-memory file system, descriptor tables, pipes, processes and the
//! Linux system-call layer, each with its contract proved by Verus.
use vstd::prelude::*;

pub mod mm;
pub mod pagetable;
pub mod path;
pub mod fs;
pub mod trap;
pub mod fdtable;
pub mod pipe;
pub mod uaccess;
pub mod proc;
pub mod elf;
pub mod elf_parse;
pub mod net;
pub mod syscall;
