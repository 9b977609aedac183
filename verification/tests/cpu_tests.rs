use chip8::cpu::{Chip8CPU, Effect};
use chip8::display::Chip8Display;
use chip8::keyboard::Chip8Keyboard;
use chip8::ram::Chip8Ram;

struct Machine {
    cpu: Chip8CPU,
    ram: Chip8Ram,
    kb: Chip8Keyboard,
}

fn machine() -> Machine {
    Machine { cpu: Chip8CPU::new(Chip8Display::new()), ram: Chip8Ram::new(), kb: Chip8Keyboard::new() }
}

impl Machine {
    fn run(&mut self, op: u16) -> Effect {
        assert!(self.cpu.can_execute(op, &mut self.kb));
        self.cpu.execute_with_random(op, &mut self.ram, &mut self.kb, 0)
    }
    fn run_rand(&mut self, op: u16, r: u8) -> Effect {
        assert!(self.cpu.can_execute(op, &mut self.kb));
        self.cpu.execute_with_random(op, &mut self.ram, &mut self.kb, r)
    }
    fn lit(&self) -> usize {
        self.cpu.display.pixels.iter().map(|r| r.iter().filter(|p| **p).count()).sum()
    }
}

#[test]
fn new_cpu_starts_at_0x200_with_cleared_registers() {
    let m = machine();
    assert_eq!(m.cpu.pc, 0x200);
    for r in 0..16 {
        assert_eq!(m.cpu.register(r), 0);
    }
    assert_eq!(m.cpu.index_register(), 0);
    assert_eq!(m.cpu.delay_timer(), 0);
    assert_eq!(m.cpu.sound_timer(), 0);
    assert!(m.cpu.stack().is_empty());
}

#[test]
fn load_and_add_constant() {
    let mut m = machine();
    assert_eq!(m.run(0x6A42), Effect::Proceed);
    assert_eq!(m.cpu.register(0xA), 0x42);
    assert_eq!(m.cpu.pc, 0x202);
    m.run(0x7AC0);
    assert_eq!(m.cpu.register(0xA), 0x02);
    assert_eq!(m.cpu.register(0xF), 0);
    assert_eq!(m.cpu.pc, 0x204);
}

#[test]
fn jump_and_jump_with_offset() {
    let mut m = machine();
    m.run(0x1ABC);
    assert_eq!(m.cpu.pc, 0xABC);
    m.run(0x6010);
    m.run(0xB300);
    assert_eq!(m.cpu.pc, 0x310);
}

#[test]
fn call_then_return_resumes_after_call() {
    let mut m = machine();
    m.run(0x2400);
    assert_eq!(m.cpu.pc, 0x400);
    assert_eq!(m.cpu.stack(), &[0x202]);
    m.run(0x2600);
    assert_eq!(m.cpu.stack(), &[0x202, 0x402]);
    m.run(0x00EE);
    assert_eq!(m.cpu.pc, 0x402);
    m.run(0x00EE);
    assert_eq!(m.cpu.pc, 0x202);
    assert!(m.cpu.stack().is_empty());
}

#[test]
fn return_with_empty_stack_cannot_run() {
    let mut m = machine();
    assert!(!m.cpu.can_execute(0x00EE, &mut m.kb));
}

#[test]
fn skips_on_register_and_constant() {
    let mut m = machine();
    m.run(0x6305);
    m.run(0x3305);
    assert_eq!(m.cpu.pc, 0x206);
    m.run(0x3306);
    assert_eq!(m.cpu.pc, 0x208);
    m.run(0x4306);
    assert_eq!(m.cpu.pc, 0x20C);
    m.run(0x4305);
    assert_eq!(m.cpu.pc, 0x20E);
}

#[test]
fn skips_on_two_registers() {
    let mut m = machine();
    m.run(0x6107);
    m.run(0x6207);
    let pc = m.cpu.pc;
    m.run(0x5120);
    assert_eq!(m.cpu.pc, pc + 4);
    m.run(0x9120);
    assert_eq!(m.cpu.pc, pc + 6);
    m.run(0x6208);
    m.run(0x9120);
    assert_eq!(m.cpu.pc, pc + 12);
}

#[test]
fn equal_and_not_equal_skips_are_exclusive() {
    for kk in [0x00u16, 0x05, 0xFF] {
        let mut a = machine();
        a.run(0x6505);
        let mut b = machine();
        b.run(0x6505);
        a.run(0x3500 | kk);
        b.run(0x4500 | kk);
        assert_ne!(a.cpu.pc, b.cpu.pc);
        assert_eq!(a.cpu.pc + b.cpu.pc, 2 * 0x202 + 6);
    }
}

#[test]
fn register_moves_and_logic() {
    let mut m = machine();
    m.run(0x61F0);
    m.run(0x623C);
    m.run(0x8320);
    assert_eq!(m.cpu.register(3), 0x3C);
    m.run(0x8311);
    assert_eq!(m.cpu.register(3), 0xFC);
    m.run(0x8322);
    assert_eq!(m.cpu.register(3), 0x3C);
    m.run(0x8313);
    assert_eq!(m.cpu.register(3), 0xCC);
}

#[test]
fn add_sets_carry() {
    let mut m = machine();
    m.run(0x61C8);
    m.run(0x6264);
    m.run(0x8124);
    assert_eq!(m.cpu.register(1), 0x2C);
    assert_eq!(m.cpu.register(0xF), 1);
    assert_eq!(m.cpu.register(1) as u16 + 256 * m.cpu.register(0xF) as u16, 200 + 100);
    m.run(0x8124);
    assert_eq!(m.cpu.register(1), 0x90);
    assert_eq!(m.cpu.register(0xF), 0);
}

#[test]
fn add_into_flag_register_uses_the_new_flag() {
    let mut m = machine();
    m.run(0x6FFF);
    m.run(0x6102);
    m.run(0x8F14);
    // VF is cleared before the carry test, so 0 + 2 carries nothing and
    // the sum is 0 + 2.
    assert_eq!(m.cpu.register(0xF), 2);
}

#[test]
fn subtract_sets_not_borrow() {
    let mut m = machine();
    m.run(0x610A);
    m.run(0x6203);
    m.run(0x8125);
    assert_eq!(m.cpu.register(1), 7);
    assert_eq!(m.cpu.register(0xF), 1);
    m.run(0x6303);
    m.run(0x8235);
    assert_eq!(m.cpu.register(2), 0);
    assert_eq!(m.cpu.register(0xF), 0);
    m.run(0x6401);
    m.run(0x6502);
    m.run(0x8455);
    assert_eq!(m.cpu.register(4), 0xFF);
    assert_eq!(m.cpu.register(0xF), 0);
}

#[test]
fn reverse_subtract() {
    let mut m = machine();
    m.run(0x6103);
    m.run(0x620A);
    m.run(0x8127);
    assert_eq!(m.cpu.register(1), 7);
    assert_eq!(m.cpu.register(0xF), 1);
    m.run(0x6105);
    m.run(0x6201);
    m.run(0x8127);
    assert_eq!(m.cpu.register(1), 0xFC);
    assert_eq!(m.cpu.register(0xF), 0);
}

#[test]
fn shifts_report_the_bit_shifted_out() {
    let mut m = machine();
    m.run(0x6105);
    m.run(0x8106);
    assert_eq!(m.cpu.register(1), 2);
    assert_eq!(m.cpu.register(0xF), 1);
    m.run(0x6181);
    m.run(0x810E);
    assert_eq!(m.cpu.register(1), 0x02);
    assert_eq!(m.cpu.register(0xF), 0x80);
    m.run(0x6140);
    m.run(0x810E);
    assert_eq!(m.cpu.register(1), 0x80);
    assert_eq!(m.cpu.register(0xF), 0);
}

#[test]
fn unknown_opcodes_are_skipped() {
    let mut m = machine();
    m.run(0x6123);
    assert_eq!(m.run(0x8128), Effect::UnknownOpcode(0x8128));
    assert_eq!(m.cpu.register(1), 0x23);
    assert_eq!(m.cpu.pc, 0x204);
    assert_eq!(m.run(0x0123), Effect::UnknownOpcode(0x0123));
    assert_eq!(m.run(0xE1FF), Effect::UnknownOpcode(0xE1FF));
    assert_eq!(m.run(0xF1FF), Effect::UnknownOpcode(0xF1FF));
    assert_eq!(m.cpu.pc, 0x20A);
}

#[test]
fn clear_screen_leaves_pixels_to_the_surroundings() {
    let mut m = machine();
    m.cpu.display.xor_pixel(1, 1);
    assert_eq!(m.run(0x00E0), Effect::ClearScreen);
    assert!(m.cpu.display.pixels[1][1]);
    assert_eq!(m.cpu.pc, 0x202);
}

#[test]
fn index_register_instructions() {
    let mut m = machine();
    m.run(0xA123);
    assert_eq!(m.cpu.index_register(), 0x123);
    m.run(0x6510);
    m.run(0xF51E);
    assert_eq!(m.cpu.index_register(), 0x133);
    m.run(0x651B);
    m.run(0xF529);
    assert_eq!(m.cpu.index_register(), 0xB * 5);
}

#[test]
fn index_overflow_cannot_run() {
    let mut m = machine();
    m.run(0xAFFF);
    for _ in 0..16 {
        m.run(0x61FF);
        m.run(0xF11E);
    }
    assert_eq!(m.cpu.index_register(), 0xFFF + 16 * 0xFF);
    let mut i = m.cpu.index_register();
    while i as u32 + 0xFF <= 0xFFFF {
        m.run(0xF11E);
        i = m.cpu.index_register();
    }
    assert!(!m.cpu.can_execute(0xF11E, &mut m.kb));
}

#[test]
fn random_byte_is_masked() {
    let mut m = machine();
    m.run_rand(0xC30F, 0xAB);
    assert_eq!(m.cpu.register(3), 0x0B);
    m.run_rand(0xC3F0, 0xAB);
    assert_eq!(m.cpu.register(3), 0xA0);
    m.run_rand(0xC300, 0xFF);
    assert_eq!(m.cpu.register(3), 0);
}

#[test]
fn execute_draws_random_bytes_within_the_mask() {
    let mut m = machine();
    for _ in 0..200 {
        assert_eq!(m.cpu.execute(0xC4A5, &mut m.ram, &mut m.kb), Effect::Proceed);
        assert_eq!(m.cpu.register(4) & !0xA5, 0);
    }
}

#[test]
fn timers_are_set_read_and_count_down() {
    let mut m = machine();
    m.run(0x6102);
    m.run(0xF115);
    m.run(0xF118);
    assert_eq!(m.cpu.delay_timer(), 2);
    assert_eq!(m.cpu.sound_timer(), 2);
    m.cpu.update_timers();
    m.run(0xF207);
    assert_eq!(m.cpu.register(2), 1);
    m.cpu.update_timers();
    m.cpu.update_timers();
    assert_eq!(m.cpu.delay_timer(), 0);
    assert_eq!(m.cpu.sound_timer(), 0);
}

#[test]
fn bcd_of_register() {
    let mut m = machine();
    m.run(0x6AFE);
    m.run(0xA300);
    m.run(0xFA33);
    assert_eq!(m.ram.read(0x300), 2);
    assert_eq!(m.ram.read(0x301), 5);
    assert_eq!(m.ram.read(0x302), 4);
    m.run(0x6A07);
    m.run(0xFA33);
    assert_eq!(m.ram.read(0x300), 0);
    assert_eq!(m.ram.read(0x301), 0);
    assert_eq!(m.ram.read(0x302), 7);
}

#[test]
fn store_and_load_registers() {
    let mut m = machine();
    m.run(0x6011);
    m.run(0x6122);
    m.run(0x6233);
    m.run(0x6344);
    m.run(0xA400);
    m.run(0xF255);
    assert_eq!(m.ram.read(0x400), 0x11);
    assert_eq!(m.ram.read(0x401), 0x22);
    assert_eq!(m.ram.read(0x402), 0x33);
    assert_eq!(m.ram.read(0x403), 0);
    m.run(0x6000);
    m.run(0x6100);
    m.run(0x6200);
    m.run(0xF265);
    assert_eq!(m.cpu.register(0), 0x11);
    assert_eq!(m.cpu.register(1), 0x22);
    assert_eq!(m.cpu.register(2), 0x33);
    assert_eq!(m.cpu.register(3), 0x44);
    assert_eq!(m.cpu.index_register(), 0x400);
}

#[test]
fn store_wraps_at_end_of_memory() {
    let mut m = machine();
    m.run(0x60AA);
    m.run(0x61BB);
    m.run(0xAFFF);
    m.run(0xF155);
    assert_eq!(m.ram.read(0xFFF), 0xAA);
    assert_eq!(m.ram.read(0x000), 0xBB);
}

#[test]
fn wait_for_key_repeats_until_a_key_is_held() {
    let mut m = machine();
    assert_eq!(m.run(0xF50A), Effect::Proceed);
    assert_eq!(m.cpu.pc, 0x200);
    m.kb.key_down(0xB);
    m.kb.key_down(0xE);
    m.run(0xF50A);
    assert_eq!(m.cpu.pc, 0x202);
    assert_eq!(m.cpu.register(5), 0xB);
}

#[test]
fn key_skips() {
    let mut m = machine();
    m.run(0x6607);
    m.run(0xE69E);
    assert_eq!(m.cpu.pc, 0x204);
    m.run(0xE6A1);
    assert_eq!(m.cpu.pc, 0x208);
    m.kb.key_down(7);
    m.run(0xE69E);
    assert_eq!(m.cpu.pc, 0x20C);
    m.run(0xE6A1);
    assert_eq!(m.cpu.pc, 0x20E);
}

#[test]
fn key_skip_on_register_above_fifteen_cannot_run() {
    let mut m = machine();
    m.run(0x6610);
    assert!(!m.cpu.can_execute(0xE69E, &mut m.kb));
    assert!(!m.cpu.can_execute(0xE6A1, &mut m.kb));
    assert!(m.cpu.can_execute(0xE6FF, &mut m.kb));
}

#[test]
fn program_counter_at_top_cannot_advance() {
    let mut m = machine();
    m.cpu.pc = 0xFFFE;
    assert!(!m.cpu.can_execute(0x6000, &mut m.kb));
    m.cpu.pc = 0xFFFC;
    assert!(m.cpu.can_execute(0x6000, &mut m.kb));
    assert!(!m.cpu.can_execute(0x3000, &mut m.kb));
    assert!(m.cpu.can_execute(0x3001, &mut m.kb));
}

#[test]
fn draw_font_digit_zero() {
    let mut m = machine();
    m.run(0xA000);
    m.run(0x6000);
    m.run(0x6100);
    m.run(0xD015);
    assert_eq!(m.cpu.register(0xF), 0);
    let rows: [[bool; 4]; 5] = [
        [true, true, true, true],
        [true, false, false, true],
        [true, false, false, true],
        [true, false, false, true],
        [true, true, true, true],
    ];
    for y in 0..5 {
        for x in 0..4 {
            assert_eq!(m.cpu.display.pixels[y][x], rows[y][x]);
        }
        for x in 4..64 {
            assert!(!m.cpu.display.pixels[y][x]);
        }
    }
    assert_eq!(m.lit(), 14);
}

#[test]
fn drawing_twice_erases_and_reports_collision() {
    let mut m = machine();
    m.run(0x6005);
    m.run(0x6107);
    m.run(0xA00A);
    m.run(0xD015);
    assert_eq!(m.cpu.register(0xF), 0);
    assert!(m.lit() > 0);
    m.run(0xD015);
    assert_eq!(m.cpu.register(0xF), 1);
    assert_eq!(m.lit(), 0);
}

#[test]
fn drawing_wraps_around_edges() {
    let mut m = machine();
    m.run(0x603E);
    m.run(0x611F);
    m.run(0xA300);
    m.ram.write(0x300, 0xFF);
    m.ram.write(0x301, 0x81);
    m.run(0xD012);
    for x in [62usize, 63, 0, 1, 2, 3, 4, 5] {
        assert!(m.cpu.display.pixels[31][x]);
    }
    assert!(m.cpu.display.pixels[0][62]);
    assert!(m.cpu.display.pixels[0][5]);
    assert!(!m.cpu.display.pixels[0][63]);
    assert_eq!(m.lit(), 10);
}

#[test]
fn drawing_with_flag_register_as_coordinate() {
    let mut m = machine();
    m.run(0x6F03);
    m.run(0xA300);
    m.ram.write(0x300, 0x80);
    m.run(0xDFF1);
    assert!(m.cpu.display.pixels[3][3]);
    assert_eq!(m.cpu.register(0xF), 0);
}

#[test]
fn fetch_and_cycle() {
    let mut m = machine();
    m.ram.load_rom(&[0x61, 0x2A, 0x71, 0x01, 0x12, 0x00]);
    assert_eq!(m.cpu.fetch_opcode(&m.ram), 0x612A);
    assert_eq!(m.cpu.cycle(&mut m.ram, &mut m.kb), Effect::Proceed);
    assert_eq!(m.cpu.register(1), 0x2A);
    m.cpu.cycle(&mut m.ram, &mut m.kb);
    assert_eq!(m.cpu.register(1), 0x2B);
    m.cpu.cycle(&mut m.ram, &mut m.kb);
    assert_eq!(m.cpu.pc, 0x200);
    m.cpu.cycle(&mut m.ram, &mut m.kb);
    assert_eq!(m.cpu.register(1), 0x2A);
}

#[test]
fn only_store_instructions_write_memory() {
    let mut m = machine();
    let before: Vec<u8> = (0..4096).map(|a| m.ram.read(a)).collect();
    for op in [0x6155u16, 0x7101, 0x8124, 0xA000, 0xD115, 0xF11E, 0xF165, 0x2300, 0x00EE, 0xC1FF] {
        m.run(op);
    }
    let after: Vec<u8> = (0..4096).map(|a| m.ram.read(a)).collect();
    assert_eq!(before, after);
    m.run(0x61FE);
    m.run(0xA300);
    m.run(0xF133);
    assert_ne!((0..4096).map(|a| m.ram.read(a)).collect::<Vec<u8>>(), after);
}

#[test]
fn pc_and_display_getters_follow_the_machine() {
    let mut m = machine();
    assert_eq!(m.cpu.pc(), 0x200);
    m.run(0x6000);
    m.run(0xA000);
    m.run(0xD001);
    assert_eq!(m.cpu.pc(), 0x206);
    assert!(m.cpu.display().pixels[0][0]);
    assert!(!m.cpu.display().pixels[0][4]);
}

#[test]
fn timers_reach_zero_after_enough_ticks() {
    let mut m = machine();
    m.run(0x6107);
    m.run(0x6203);
    m.run(0xF115);
    m.run(0xF218);
    for n in 1..=7u8 {
        m.cpu.update_timers();
        assert_eq!(m.cpu.delay_timer(), 7 - n);
        assert_eq!(m.cpu.sound_timer(), 3u8.saturating_sub(n));
    }
    m.cpu.update_timers();
    assert_eq!(m.cpu.delay_timer(), 0);
    assert_eq!(m.cpu.sound_timer(), 0);
}

#[test]
fn second_draw_flags_sprite_bits_over_previously_dark_pixels() {
    let mut m = machine();
    m.run(0x6000);
    m.run(0x6100);
    m.run(0xA300);
    m.ram.write(0x300, 0xC0);
    m.cpu.display.xor_pixel(0, 0);
    // Pixel (1, 0) is dark before the first draw: the second draw collides.
    m.run(0xD011);
    assert_eq!(m.cpu.register(0xF), 1);
    m.run(0xD011);
    assert_eq!(m.cpu.register(0xF), 1);
    assert!(m.cpu.display.pixels[0][0]);
    assert!(!m.cpu.display.pixels[0][1]);
    // Both pixels lit before the first draw: nothing dark is hit.
    m.cpu.display.xor_pixel(1, 0);
    m.run(0xD011);
    m.run(0xD011);
    assert_eq!(m.cpu.register(0xF), 0);
    assert!(m.cpu.display.pixels[0][0] && m.cpu.display.pixels[0][1]);
}

#[test]
fn frame_runs_sixteen_instructions_then_ticks() {
    let mut m = machine();
    let mut rom: Vec<u8> = Vec::new();
    rom.extend_from_slice(&[0x60, 0x05, 0xF0, 0x15]);
    for _ in 0..13 {
        rom.extend_from_slice(&[0x71, 0x01]);
    }
    rom.extend_from_slice(&[0x00, 0xE0, 0x00, 0x01, 0x72, 0x01]);
    m.ram.load_rom(&rom);
    let frame = m.cpu.run_frame(&mut m.ram, &mut m.kb);
    assert_eq!(frame.stuck, None);
    assert_eq!(frame.effects.len(), 16);
    assert_eq!(frame.effects[15], Effect::ClearScreen);
    assert!(frame.effects[..15].iter().all(|e| *e == Effect::Proceed));
    assert_eq!(m.cpu.register(1), 13);
    assert_eq!(m.cpu.pc(), 0x220);
    assert_eq!(m.cpu.delay_timer(), 4);
    let frame = m.cpu.run_frame(&mut m.ram, &mut m.kb);
    assert_eq!(frame.effects[0], Effect::UnknownOpcode(0x0001));
    assert_eq!(m.cpu.register(2), 1);
}

#[test]
fn frame_stops_at_an_instruction_that_cannot_run() {
    let mut m = machine();
    m.ram.load_rom(&[0x61, 0x01, 0x61, 0x02, 0x00, 0xEE, 0x61, 0x03]);
    m.run(0x6209);
    m.run(0xF215);
    m.cpu.pc = 0x200;
    let frame = m.cpu.run_frame(&mut m.ram, &mut m.kb);
    assert_eq!(frame.stuck, Some(0x00EE));
    assert_eq!(frame.effects, vec![Effect::Proceed, Effect::Proceed]);
    assert_eq!(m.cpu.pc(), 0x204);
    assert_eq!(m.cpu.register(1), 2);
    assert_eq!(m.cpu.delay_timer(), 9);
}
