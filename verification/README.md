# erhino_kernel

The verified core of a small RISC-V kernel, written in Verus.

`src/` is the library; Verus proves every function in it against its contract,
apart from the few wrappers around outside crates and std, whose contracts are
trusted and say in their doc comments what they claim:

- `sbi`, `see`: the firmware calls the kernel issues and the decoding of their
  answers; what the firmware reported about itself.
- `hart`, `timer`, `rng`: the hart table and hart start-up decisions, timer
  arithmetic, the kernel's random numbers.
- `mm`: addresses, page table entries, multi-level page tables, the frame pool (on
  top of `buddy_system_allocator`) and the memory unit that maps page ranges with
  the largest pages that fit.
- `board`, `rt`: what the device tree says of the board, and the start-up reading.
- `path`, `fal`, `fs`: paths, the file system interface, the in-memory root file
  system, the process file system, and the routing between them.
- `proc`, `process`: processes, threads, the smooth scheduler, stack layout.
- `peripheral`, `sync`: the core-local interruptor's register layout, and the lock
  interface.

`tests/` runs the library on concrete values. `app/` is the host program around it:
it parses the device tree blob and the initial archive, runs firmware calls, and
holds the spinning locks and cells, which work on atomics and raw pointers.
