# rvos

A small RISC-V 64 (SV39) kernel that runs static Linux binaries, with its
logic written in Verus and proved against its contracts.

## Layout

- `src/` — the verified library:
  - `mm.rs`: physical memory as frames of words, the frame and heap
    allocators, page-table entries and flags;
  - `pagetable.rs`: SV39 page tables (walk, map, unmap, translate, the
    kernel's identity mappings, the copy of a user address space);
  - `uaccess.rs`: reading and writing user memory through a page table;
  - `path.rs`, `fs.rs`: the in-memory file system (lookup, files, directory
    listings as `linux_dirent64` records, the boot-time tree);
  - `fdtable.rs`, `pipe.rs`: descriptor tables and ring-buffer pipes;
  - `elf_parse.rs`: reading an executable's headers with `xmas-elf`, after
    a verified check that its program headers lie inside the file;
  - `elf.rs`: loading `PT_LOAD` segments, the user stack and its initial
    layout (`argc`, `argv`, `envp`, auxiliary vector);
  - `proc.rs`: processes, `fork`, `exec`, exit, and the round-robin choice
    of the process that runs next;
  - `net.rs`: the bookkeeping of sockets and epoll readiness;
  - `syscall.rs`: the Linux system-call layer and its dispatcher; each call's
    contract is a spec function `<name>_call`, and `syscall_effect` gathers
    them by number;
  - `trap.rs`: the saved registers and the handling of a trap.
- `tests/` — tests run against the compiled library.
- `app/` — the machine around the library: boot, the UART console, the
  virtio-net device and the smoltcp network stack, and the trap entry.
  Work that a system call hands back (network requests, an `execve`,
  console input) is taken up there and finished by a verified function of
  the library.
- `extras/trap_vector.S` — the assembly trap vector that saves the
  registers and calls the app's trap entry.
