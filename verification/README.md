# lavaxemu_core

A LavaX virtual machine for the Wenquxing e-dictionary games, written in Verus:
the machine, its screen, keyboard, virtual file system and system calls are
executable Rust whose behaviour is stated in `requires`/`ensures` contracts and
proved.

## Layout

- `src/program.rs`: the LAV header and program image.
- `src/vm.rs`: the bytecode interpreter (`VmView` is its abstract state; every
  instruction is a spec transition that `Vm::step` refines).
- `src/display.rs`, `src/console.rs`: the two-buffer screen with its drawing
  primitives, and the text console drawn on it.
- `src/input.rs`: held keys, the key queue, auto-repeat and the pointer.
- `src/vfs.rs`, `src/path.rs`, `src/text.rs`: the in-memory file system with
  guest path resolution confined to its root.
- `src/emulator.rs` and `src/emulator/`: the machine (`EmulatorView`), the
  system calls (`system.rs`) and the 60 Hz frame loop (`frame.rs`).
- `src/state.rs`: the save-state framing (magic, version, length, CRC-32).
- `src/cli.rs`: the standalone player's command line.
- `app/`: the standalone player (window, files on disk, floating point).
- `tests/`: tests of the library.

## Floating point

The library computes no floating point. A frame that reaches a floating-point
instruction, a math system call or a `%f` conversion stops with
`FrameStatus::Host(request)`; the host computes the answer and hands it to
`Emulator::resume_frame`, which goes on with the frame where it stopped.

## Font

Text is drawn with the `LVM.bin` font image, which a screen is created with
(`Display::new`, `Emulator::new` take it; it must hold `FONT_SIZE` bytes).
The player reads it from beside the program or from `assets/`, and refuses to
start without it.
