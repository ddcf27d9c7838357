# kernel

A small x86-64 kernel: a framebuffer console, an in-memory file system with a
shell, round-robin user tasks, a heap allocator, a frame allocator, and a
raycast maze game (the Backrooms) whose entity chases the player along a
shortest path.

`src/` is the verified library, with contracts proved by Verus:

- `fs` — the file system tree, each operation stated over a model of the tree
  and the current path, with the laws that relate them (a `cat` reads what a
  `touch` wrote, `cd` enters what `mkdir` made, `cd ..` undoes `cd`).
- `syscalls` — system call numbers, number formatting, and what a command
  line prints and does to the file system.
- `task` — tasks with their initial interrupt frame, and the scheduler.
- `memory` — the frame bitmap, the first-fit heap allocator, page indices.
- `allocator` — a bump allocator.
- `gdt`, `arch::idt`, `idt` — descriptor tables and scan codes.
- `drivers` — the framebuffer console and the mouse configuration.
- `backrooms` — the maze, the breadth-first search that moves the entity, the
  mouse packet decoder and queue.
- `vga` — a text-mode console.

`app/` is the kernel image around it: port and memory-mapped I/O, interrupt
entry code, model-specific registers, the global allocator, and the game's
floating-point renderer.
