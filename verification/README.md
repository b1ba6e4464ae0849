# velordor

The userland of a small microkernel system: a verified library, and the programs around it.

`src/` is the library, checked by Verus. Each module holds the logic of one program:

- `fs`: the file system server. FAT32 volumes, files in memory, mounts, descriptors, pipes, rights, grants, and the rings that clients talk through.
- `disk`: the driver for ATA drives. Detection, transfers, the sector cache, partitions and device nodes.
- `shell`: parsing, expansion, the line editor, jobs, pipelines, redirection and the built-in commands.
- `tty`, `kbd`, `console`, `devfs`: the terminal and its devices.
- `init`: the services and when they are started again.
- `programs`: the small programs.
- `bytes`, `text`, `names`, `ring`, `tables`: what the others share.

What the machine answers (sectors, port values, messages, the time) is an argument. A program that asks and decides in turn is a state machine that names one question at a time.

Proof functions whose names begin with `law_` state what holds across calls. Those of volumes are in `src/fs/fat32/laws*.rs`, those of files as clients see them in `src/fs/laws.rs`.

`app/` runs the machines on the kernel. `tests/` runs the library on concrete values.
