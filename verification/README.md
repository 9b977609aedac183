# chip8

A CHIP-8 virtual machine whose interpreter is verified with Verus.

- `src/ram.rs`: the 4 KiB memory with the built-in font, program loading.
- `src/keyboard.rs`: the sixteen-key keypad and its host keyboard layout.
- `src/display.rs`: the 64 x 32 frame buffer and sprite drawing.
- `src/cpu.rs`: registers, the instruction semantics (`step`) and the
  interpreter proved to follow it, the 60 Hz frame (`run_frame`: sixteen
  instructions, then a timer tick), with properties of the instruction set.
- `src/utils.rs`: the random byte source used by `Cxkk`.
- `app/main.rs`: the SDL window, keyboard events, ROM loading, memory dump,
  single-stepping and the main loop's timing.
