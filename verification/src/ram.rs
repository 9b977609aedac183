use vstd::prelude::*;

verus! {

/// Number of addressable bytes.
pub const MEMORY_SIZE: usize = 4096;

/// Address at which programs are loaded.
pub const PROGRAM_START: usize = 0x200;

/// The sixteen built-in hexadecimal digit sprites, five bytes each,
/// stored from address 0.
pub open spec fn font_sprites() -> Seq<u8> {
    seq![
        0xF0u8, 0x90, 0x90, 0x90, 0xF0, // 0
        0x20, 0x60, 0x20, 0x20, 0x70, // 1
        0xF0, 0x10, 0xF0, 0x80, 0xF0, // 2
        0xF0, 0x10, 0xF0, 0x10, 0xF0, // 3
        0x90, 0x90, 0xF0, 0x10, 0x10, // 4
        0xF0, 0x80, 0xF0, 0x10, 0xF0, // 5
        0xF0, 0x80, 0xF0, 0x90, 0xF0, // 6
        0xF0, 0x10, 0x20, 0x40, 0x40, // 7
        0xF0, 0x90, 0xF0, 0x90, 0xF0, // 8
        0xF0, 0x90, 0xF0, 0x10, 0xF0, // 9
        0xF0, 0x90, 0xF0, 0x90, 0x90, // A
        0xE0, 0x90, 0xE0, 0x90, 0xE0, // B
        0xF0, 0x80, 0x80, 0x80, 0xF0, // C
        0xE0, 0x90, 0x90, 0x90, 0xE0, // D
        0xF0, 0x80, 0xF0, 0x80, 0xF0, // E
        0xF0, 0x80, 0xF0, 0x80, 0x80, // F
    ]
}

/// The byte that a read of `addr` sees: addresses wrap around the 4 KiB space.
pub open spec fn mem_read(mem: Seq<u8>, addr: int) -> u8 {
    mem[addr % 4096]
}

/// The memory after writing `value` at `addr` (wrapping as for reads).
pub open spec fn mem_write(mem: Seq<u8>, addr: int, value: u8) -> Seq<u8> {
    mem.update(addr % 4096, value)
}

/// Memory of a freshly created machine: the fontset, then zeros.
pub open spec fn initial_memory() -> Seq<u8> {
    Seq::new(4096, |a: int| if a < 80 { font_sprites()[a] } else { 0u8 })
}

/// Memory after loading a program image at `PROGRAM_START`.
pub open spec fn with_rom(mem: Seq<u8>, rom: Seq<u8>) -> Seq<u8> {
    Seq::new(
        mem.len(),
        |a: int| if 0x200 <= a < 0x200 + rom.len() { rom[a - 0x200] } else { mem[a] },
    )
}

/// The 4 KiB memory of the machine.
#[derive(Debug)]
pub struct Chip8Ram {
    memory: [u8; 4096],
}

impl View for Chip8Ram {
    type V = Seq<u8>;

    closed spec fn view(&self) -> Seq<u8> {
        self.memory@
    }
}

impl Chip8Ram {
    /// A memory of exactly 4096 bytes; every value of the type has it.
    pub proof fn lemma_len(&self)
        ensures
            self@.len() == 4096,
    {
    }

    /// Zeroed memory with the fontset at the bottom.
    pub fn new() -> (ram: Self)
        ensures
            ram@ == initial_memory(),
    {
        let mut ram: Chip8Ram = Chip8Ram { memory: [0; 4096] };
        ram.load_fontset();
        assert(ram@ =~= initial_memory());
        ram
    }

    /// The byte at `addr`, taken modulo the memory size.
    pub fn read(&self, addr: usize) -> (value: u8)
        ensures
            value == mem_read(self@, addr as int),
    {
        self.memory[addr % 4096]
    }

    /// Stores `value` at `addr`, taken modulo the memory size.
    pub fn write(&mut self, addr: usize, value: u8)
        ensures
            final(self)@ == mem_write(old(self)@, addr as int, value),
    {
        self.memory[addr % 4096] = value;
    }

    fn load_fontset(&mut self)
        ensures
            final(self)@ == Seq::new(
                4096,
                |a: int| if a < 80 { font_sprites()[a] } else { old(self)@[a] },
            ),
    {
        let fontset: [u8; 80] = [
            0xF0, 0x90, 0x90, 0x90, 0xF0, // 0
            0x20, 0x60, 0x20, 0x20, 0x70, // 1
            0xF0, 0x10, 0xF0, 0x80, 0xF0, // 2
            0xF0, 0x10, 0xF0, 0x10, 0xF0, // 3
            0x90, 0x90, 0xF0, 0x10, 0x10, // 4
            0xF0, 0x80, 0xF0, 0x10, 0xF0, // 5
            0xF0, 0x80, 0xF0, 0x90, 0xF0, // 6
            0xF0, 0x10, 0x20, 0x40, 0x40, // 7
            0xF0, 0x90, 0xF0, 0x90, 0xF0, // 8
            0xF0, 0x90, 0xF0, 0x10, 0xF0, // 9
            0xF0, 0x90, 0xF0, 0x90, 0x90, // A
            0xE0, 0x90, 0xE0, 0x90, 0xE0, // B
            0xF0, 0x80, 0x80, 0x80, 0xF0, // C
            0xE0, 0x90, 0x90, 0x90, 0xE0, // D
            0xF0, 0x80, 0xF0, 0x80, 0xF0, // E
            0xF0, 0x80, 0xF0, 0x80, 0x80, // F
        ];
        assert(fontset@ =~= font_sprites());
        let ghost before = self@;
        let start: usize = 0x00;
        let mut i: usize = 0;
        while i < 80
            invariant
                0 <= i <= 80,
                start == 0,
                fontset@ == font_sprites(),
                before.len() == 4096,
                self@.len() == 4096,
                forall|a: int| 0 <= a < i ==> self@[a] == font_sprites()[a],
                forall|a: int| i <= a < 4096 ==> self@[a] == before[a],
            decreases 80 - i,
        {
            self.memory[start + i] = fontset[i];
            i = i + 1;
        }
        assert(self@ =~= Seq::new(4096, |a: int| if a < 80 { font_sprites()[a] } else { before[a] }));
    }

    /// Copies a program image to `PROGRAM_START`; the image must fit below
    /// the end of memory.
    pub fn load_rom(&mut self, data: &[u8])
        requires
            data@.len() <= MEMORY_SIZE - PROGRAM_START,
        ensures
            final(self)@ == with_rom(old(self)@, data@),
    {
        let start: usize = 0x200;
        let ghost before = self@;
        let mut i: usize = 0;
        while i < data.len()
            invariant
                0 <= i <= data@.len(),
                data@.len() <= 4096 - 0x200,
                start == 0x200,
                before.len() == 4096,
                self@.len() == 4096,
                forall|a: int| 0x200 <= a < 0x200 + i ==> self@[a] == data@[a - 0x200],
                forall|a: int|
                    0 <= a < 4096 && !(0x200 <= a < 0x200 + i) ==> self@[a] == before[a],
            decreases data@.len() - i,
        {
            self.memory[start + i] = data[i];
            i = i + 1;
        }
        assert(self@ =~= with_rom(before, data@));
    }
}

/// A read sees the last write to the same address (addresses taken modulo
/// the memory size), and a write leaves every other address alone.
pub proof fn lemma_read_after_write(mem: Seq<u8>, waddr: int, value: u8, raddr: int)
    requires
        mem.len() == 4096,
    ensures
        waddr % 4096 == raddr % 4096 ==> mem_read(mem_write(mem, waddr, value), raddr) == value,
        waddr % 4096 != raddr % 4096 ==> mem_read(mem_write(mem, waddr, value), raddr) == mem_read(mem, raddr),
        mem_write(mem, waddr, value).len() == 4096,
{
}

/// Addresses that differ by the memory size name the same byte.
pub proof fn lemma_address_wraps(mem: Seq<u8>, addr: int)
    ensures
        mem_read(mem, addr + 4096) == mem_read(mem, addr),
        0 <= addr < 4096 ==> mem_read(mem, addr) == mem[addr],
{
}

/// Loading a program puts its j-th byte at 0x200 + j and leaves the bytes
/// below 0x200 and after the program as they were.
pub proof fn lemma_rom_placement(mem: Seq<u8>, rom: Seq<u8>, a: int)
    requires
        mem.len() == 4096,
        rom.len() <= 4096 - 0x200,
        0 <= a < 4096,
    ensures
        with_rom(mem, rom).len() == 4096,
        a < 0x200 || a >= 0x200 + rom.len() ==> with_rom(mem, rom)[a] == mem[a],
        forall|j: int| 0 <= j < rom.len() ==> #[trigger] with_rom(mem, rom)[0x200 + j] == rom[j],
{
}

/// The five-byte font glyph of hexadecimal digit `d` in a fresh memory.
pub open spec fn glyph(d: int) -> Seq<u8> {
    initial_memory().subrange(5 * d, 5 * d + 5)
}

/// The five rows of a glyph read as one number, top row most significant.
spec fn glyph_code(d: int) -> int {
    let g = glyph(d);
    g[0] * 0x100000000 + g[1] * 0x1000000 + g[2] * 0x10000 + g[3] * 0x100 + g[4]
}

/// The built-in font: the sixteen glyphs are pairwise different, so every
/// hexadecimal digit is drawn with a shape of its own; every glyph is at
/// most four pixels wide (the low nibble of each row is clear) and has a
/// lit pixel in its top and bottom rows.  The bytes after the font start
/// out as zero.
pub proof fn lemma_font_glyphs(a: int, b: int, k: int)
    requires
        0 <= a < 16,
        0 <= b < 16,
    ensures
        a != b ==> glyph(a) != glyph(b),
        0 <= k < 80 ==> initial_memory()[k] % 16 == 0,
        80 <= k < 4096 ==> initial_memory()[k] == 0,
        glyph(a)[0] != 0 && glyph(a)[4] != 0,
{
    let m = initial_memory();
    let f = font_sprites();
    assert(f[0] == 0xF0 && f[1] == 0x90 && f[2] == 0x90 && f[3] == 0x90 && f[4] == 0xF0);
    assert(f[5] == 0x20 && f[6] == 0x60 && f[7] == 0x20 && f[8] == 0x20 && f[9] == 0x70);
    assert(f[10] == 0xF0 && f[11] == 0x10 && f[12] == 0xF0 && f[13] == 0x80 && f[14] == 0xF0);
    assert(f[15] == 0xF0 && f[16] == 0x10 && f[17] == 0xF0 && f[18] == 0x10 && f[19] == 0xF0);
    assert(f[20] == 0x90 && f[21] == 0x90 && f[22] == 0xF0 && f[23] == 0x10 && f[24] == 0x10);
    assert(f[25] == 0xF0 && f[26] == 0x80 && f[27] == 0xF0 && f[28] == 0x10 && f[29] == 0xF0);
    assert(f[30] == 0xF0 && f[31] == 0x80 && f[32] == 0xF0 && f[33] == 0x90 && f[34] == 0xF0);
    assert(f[35] == 0xF0 && f[36] == 0x10 && f[37] == 0x20 && f[38] == 0x40 && f[39] == 0x40);
    assert(f[40] == 0xF0 && f[41] == 0x90 && f[42] == 0xF0 && f[43] == 0x90 && f[44] == 0xF0);
    assert(f[45] == 0xF0 && f[46] == 0x90 && f[47] == 0xF0 && f[48] == 0x10 && f[49] == 0xF0);
    assert(f[50] == 0xF0 && f[51] == 0x90 && f[52] == 0xF0 && f[53] == 0x90 && f[54] == 0x90);
    assert(f[55] == 0xE0 && f[56] == 0x90 && f[57] == 0xE0 && f[58] == 0x90 && f[59] == 0xE0);
    assert(f[60] == 0xF0 && f[61] == 0x80 && f[62] == 0x80 && f[63] == 0x80 && f[64] == 0xF0);
    assert(f[65] == 0xE0 && f[66] == 0x90 && f[67] == 0x90 && f[68] == 0x90 && f[69] == 0xE0);
    assert(f[70] == 0xF0 && f[71] == 0x80 && f[72] == 0xF0 && f[73] == 0x80 && f[74] == 0xF0);
    assert(f[75] == 0xF0 && f[76] == 0x80 && f[77] == 0xF0 && f[78] == 0x80 && f[79] == 0x80);
    assert(glyph_code(0) == 0xF0909090F0);
    assert(glyph_code(1) == 0x2060202070);
    assert(glyph_code(2) == 0xF010F080F0);
    assert(glyph_code(3) == 0xF010F010F0);
    assert(glyph_code(4) == 0x9090F01010);
    assert(glyph_code(5) == 0xF080F010F0);
    assert(glyph_code(6) == 0xF080F090F0);
    assert(glyph_code(7) == 0xF010204040);
    assert(glyph_code(8) == 0xF090F090F0);
    assert(glyph_code(9) == 0xF090F010F0);
    assert(glyph_code(10) == 0xF090F09090);
    assert(glyph_code(11) == 0xE090E090E0);
    assert(glyph_code(12) == 0xF0808080F0);
    assert(glyph_code(13) == 0xE0909090E0);
    assert(glyph_code(14) == 0xF080F080F0);
    assert(glyph_code(15) == 0xF080F08080);
    if a != b && glyph(a) == glyph(b) {
        assert(glyph_code(a) == glyph_code(b));
    }
}

} // verus!
