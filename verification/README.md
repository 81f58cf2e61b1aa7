# atom

The logic of a small RISC-V kernel, verified with Verus.

- `memory`, `mmu`: Sv39 page tables, address spaces and the block allocator, over a model of physical
  memory as a map from addresses to words.
- `scheduler`, `schedule`, `round_robin`, `task`, `context`: tasks, their queues and their stacks.
- `runtime`, `trap`: environment calls and traps.
- `platform`: device trees and the parameters and devices that they describe.
- `log`, `journal`, `panicking`, `text`: log messages and reports.
- `lock`, `drivers`, `boot`, `user`, `shell`: locks, device registers, start-up, the user program and
  the shell.

`src/` holds the verified library, `tests/` its tests, and `app/` a program that runs it as a process:
what touches files, the terminal and the processor's registers stands there.
