use chip8::ram::Chip8Ram;

const FONT_ZERO: [u8; 5] = [0xF0, 0x90, 0x90, 0x90, 0xF0];
const FONT_F: [u8; 5] = [0xF0, 0x80, 0xF0, 0x80, 0x80];

#[test]
fn new_ram_holds_fontset_then_zeros() {
    let ram = Chip8Ram::new();
    for (i, b) in FONT_ZERO.iter().enumerate() {
        assert_eq!(ram.read(i), *b);
    }
    for (i, b) in FONT_F.iter().enumerate() {
        assert_eq!(ram.read(75 + i), *b);
    }
    assert_eq!(ram.read(80), 0);
    assert_eq!(ram.read(0x200), 0);
    assert_eq!(ram.read(4095), 0);
}

#[test]
fn read_after_write() {
    let mut ram = Chip8Ram::new();
    ram.write(0x300, 0xAB);
    assert_eq!(ram.read(0x300), 0xAB);
    assert_eq!(ram.read(0x301), 0);
    ram.write(0x300, 0x12);
    assert_eq!(ram.read(0x300), 0x12);
}

#[test]
fn addresses_wrap_around() {
    let mut ram = Chip8Ram::new();
    assert_eq!(ram.read(4096), 0xF0);
    assert_eq!(ram.read(4096 + 4), ram.read(4));
    ram.write(4096 + 0x250, 0x77);
    assert_eq!(ram.read(0x250), 0x77);
    ram.write(2 * 4096 + 1, 0x42);
    assert_eq!(ram.read(1), 0x42);
}

#[test]
fn load_rom_places_program_at_0x200() {
    let mut ram = Chip8Ram::new();
    ram.load_rom(&[0x12, 0x34, 0x56]);
    assert_eq!(ram.read(0x1FF), 0);
    assert_eq!(ram.read(0x200), 0x12);
    assert_eq!(ram.read(0x201), 0x34);
    assert_eq!(ram.read(0x202), 0x56);
    assert_eq!(ram.read(0x203), 0);
    assert_eq!(ram.read(0), 0xF0);
}

#[test]
fn load_rom_of_largest_size_fills_memory_to_the_end() {
    let mut ram = Chip8Ram::new();
    let rom: Vec<u8> = (0..(4096 - 0x200)).map(|i| (i % 251) as u8 + 1).collect();
    ram.load_rom(&rom);
    assert_eq!(ram.read(0x200), 1);
    assert_eq!(ram.read(4095), ((4095 - 0x200) % 251) as u8 + 1);
    assert_eq!(ram.read(79), 0x80);
}

#[test]
fn empty_rom_changes_nothing() {
    let mut ram = Chip8Ram::new();
    ram.load_rom(&[]);
    assert_eq!(ram.read(0x200), 0);
    assert_eq!(ram.read(0), 0xF0);
}
