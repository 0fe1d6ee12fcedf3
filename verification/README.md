# rusty_mos

The bookkeeping of the MOS teaching kernel for MIPS, written in Verus and
proved against its specifications.

- `src/` is the verified library: the index-linked lists and the bitmap
  (`utils`), the buddy allocator, the physical page manager with its
  two-level page tables, the TLB refill and modification handlers and the
  shared memory pools (`memory`), the env table, the scheduler and the ELF
  loader (`process`), the system calls and their dispatcher (`arch_mipsel`),
  the error codes (`consts`) and the text of printed numbers (`library`).
  Each structure is specified over a mathematical view; the laws that relate
  several operations are public proof functions named `law_*`.
- `app/` boots the kernel on a hosted machine: the console is standard input
  and output, and the traps of the user programs are read from standard
  input, one per line.
- `tests/` runs the library on concrete scenarios.
