use vstd::prelude::*;
use crate::display::{Chip8Display, drawn, collides, is_screen, lands_on_dark, lemma_draw_twice};
use crate::keyboard::{Chip8Keyboard, first_pressed};
use crate::ram::{Chip8Ram, mem_read, mem_write};
use crate::utils::get_rand_byte;

verus! {

/// What the surroundings of the interpreter have to do after an
/// instruction: the interpreter itself only changes machine state.
#[derive(Clone, Copy, Debug, PartialEq, Eq, Structural)]
pub enum Effect {
    /// Nothing beyond the state change.
    Proceed,
    /// Clear the visible canvas (the pixel buffer is left as it is).
    ClearScreen,
    /// The opcode is not one the interpreter knows; it was skipped.
    UnknownOpcode(u16),
}

/// The registers and screen of the machine as mathematical values.
#[verifier::ext_equal]
pub struct CpuView {
    pub pc: u16,
    pub i: u16,
    pub v: Seq<u8>,
    pub stack: Seq<u16>,
    pub delay_timer: u8,
    pub sound_timer: u8,
    pub screen: Seq<Seq<bool>>,
}

/// The outcome of one instruction: the new registers, the new memory and
/// what is left for the surroundings to do.
#[verifier::ext_equal]
pub struct Step {
    pub cpu: CpuView,
    pub mem: Seq<u8>,
    pub effect: Effect,
}

/// Instruction group: the top nibble of the opcode.
pub open spec fn op_group(op: u16) -> int {
    op as int / 4096
}

/// First register operand: the second nibble.
pub open spec fn op_x(op: u16) -> int {
    (op as int / 256) % 16
}

/// Second register operand: the third nibble.
pub open spec fn op_y(op: u16) -> int {
    (op as int / 16) % 16
}

/// Low nibble.
pub open spec fn op_n(op: u16) -> int {
    op as int % 16
}

/// Low byte.
pub open spec fn op_kk(op: u16) -> int {
    op as int % 256
}

/// Low twelve bits: an address.
pub open spec fn op_nnn(op: u16) -> int {
    op as int % 4096
}

/// The opcode stored big-endian at `pc` and `pc + 1`.
pub open spec fn fetch(mem: Seq<u8>, pc: u16) -> u16 {
    (mem_read(mem, pc as int) * 256 + mem_read(mem, pc + 1)) as u16
}

/// Whether a conditional-skip instruction skips the next instruction.
pub open spec fn skips(c: CpuView, keys: Seq<bool>, op: u16) -> bool {
    let g = op_group(op);
    let vx = c.v[op_x(op)];
    let vy = c.v[op_y(op)];
    let kk = op_kk(op);
    if g == 0x3 {
        vx == kk
    } else if g == 0x4 {
        vx != kk
    } else if g == 0x5 {
        vx == vy
    } else if g == 0x9 {
        vx != vy
    } else if g == 0xE && kk == 0x9E {
        keys[vx as int]
    } else if g == 0xE && kk == 0xA1 {
        !keys[vx as int]
    } else {
        false
    }
}

/// The states on which an instruction runs to its end: the program counter
/// has room to advance, a return has an address to return to, a key test
/// names a key, and the index register has room for `Fx1E`.
pub open spec fn executable(c: CpuView, keys: Seq<bool>, op: u16) -> bool {
    let g = op_group(op);
    let kk = op_kk(op);
    &&& c.pc + 2 <= 0xFFFF
    &&& skips(c, keys, op) ==> c.pc + 4 <= 0xFFFF
    &&& (g == 0x0 && kk == 0xEE) ==> c.stack.len() > 0
    &&& (g == 0xE && (kk == 0x9E || kk == 0xA1)) ==> c.v[op_x(op)] < 16
    &&& (g == 0xF && kk == 0x1E) ==> c.i + c.v[op_x(op)] <= 0xFFFF
}

/// The registers with the program counter moved to `pc`.
pub open spec fn jump(c: CpuView, pc: int) -> CpuView {
    CpuView { pc: pc as u16, ..c }
}

/// The registers with the program counter on the next instruction.
pub open spec fn advance(c: CpuView) -> CpuView {
    jump(c, c.pc + 2)
}

/// `00E0` clears the screen, `00EE` returns from a subroutine; other `0nnn`
/// are unknown.
pub open spec fn step_system(c: CpuView, mem: Seq<u8>, op: u16) -> Step {
    let kk = op_kk(op);
    if kk == 0xE0 {
        Step { cpu: advance(c), mem, effect: Effect::ClearScreen }
    } else if kk == 0xEE {
        Step {
            cpu: CpuView { pc: c.stack.last(), stack: c.stack.drop_last(), ..c },
            mem,
            effect: Effect::Proceed,
        }
    } else {
        Step { cpu: advance(c), mem, effect: Effect::UnknownOpcode(op) }
    }
}

/// Jumps, calls, skips, loads of constants, `Annn`, `Bnnn` and `Cxkk`.
pub open spec fn step_basic(c: CpuView, keys: Seq<bool>, op: u16, rnd: u8) -> CpuView {
    let g = op_group(op);
    let x = op_x(op);
    let kk = op_kk(op);
    let nnn = op_nnn(op);
    if g == 0x1 {
        jump(c, nnn)
    } else if g == 0x2 {
        CpuView { pc: nnn as u16, stack: c.stack.push((c.pc + 2) as u16), ..c }
    } else if g == 0x3 || g == 0x4 || g == 0x5 || g == 0x9 {
        if skips(c, keys, op) {
            jump(c, c.pc + 4)
        } else {
            advance(c)
        }
    } else if g == 0x6 {
        CpuView { v: c.v.update(x, kk as u8), ..advance(c) }
    } else if g == 0x7 {
        CpuView { v: c.v.update(x, ((c.v[x] + kk) % 256) as u8), ..advance(c) }
    } else if g == 0xA {
        CpuView { i: nnn as u16, ..advance(c) }
    } else if g == 0xB {
        jump(c, nnn + c.v[0])
    } else {
        CpuView { v: c.v.update(x, rnd & (kk as u8)), ..advance(c) }
    }
}

/// Whether `8xyn` names a known arithmetic or logic instruction.
pub open spec fn alu_known(op: u16) -> bool {
    let n = op_n(op);
    n <= 7 || n == 0xE
}

/// The registers after `8xyn`.  The flag register VF is cleared or set
/// before the result is written, so when x or y is 15 the result is
/// computed from the new flag.
pub open spec fn alu_registers(v: Seq<u8>, op: u16) -> Seq<u8> {
    let x = op_x(op);
    let y = op_y(op);
    let n = op_n(op);
    if n == 0x0 {
        v.update(x, v[y])
    } else if n == 0x1 {
        v.update(x, v[x] | v[y])
    } else if n == 0x2 {
        v.update(x, v[x] & v[y])
    } else if n == 0x3 {
        v.update(x, v[x] ^ v[y])
    } else if n == 0x4 {
        let v0 = v.update(15, 0u8);
        let v1 = v0.update(15, if v0[x] + v0[y] > 255 { 1u8 } else { 0u8 });
        v1.update(x, ((v1[x] + v1[y]) % 256) as u8)
    } else if n == 0x5 {
        let v0 = v.update(15, 0u8);
        let v1 = v0.update(15, if v0[x] > v0[y] { 1u8 } else { 0u8 });
        v1.update(x, ((v1[x] - v1[y]) % 256) as u8)
    } else if n == 0x6 {
        let v1 = v.update(15, v[x] % 2);
        v1.update(x, v1[x] / 2)
    } else if n == 0x7 {
        let v0 = v.update(15, 0u8);
        let v1 = v0.update(15, if v0[y] > v0[x] { 1u8 } else { 0u8 });
        v1.update(x, ((v1[y] - v1[x]) % 256) as u8)
    } else if n == 0xE {
        let v1 = v.update(15, if v[x] >= 128 { 0x80u8 } else { 0u8 });
        v1.update(x, ((v1[x] * 2) % 256) as u8)
    } else {
        v
    }
}

/// `Dxyn`: draws the `n`-row sprite at I at (Vx, Vy); VF tells whether a lit
/// pixel was turned off.
pub open spec fn step_draw(c: CpuView, mem: Seq<u8>, op: u16) -> CpuView {
    let vx = c.v[op_x(op)];
    let vy = c.v[op_y(op)];
    let n = op_n(op);
    CpuView {
        screen: drawn(c.screen, mem, c.i as int, vx, vy, n),
        v: c.v.update(15, if collides(c.screen, mem, c.i as int, vx, vy, n) { 1u8 } else { 0u8 }),
        ..advance(c)
    }
}

/// `Ex9E` and `ExA1`: skip on the state of key Vx.
pub open spec fn step_keys(c: CpuView, mem: Seq<u8>, keys: Seq<bool>, op: u16) -> Step {
    let kk = op_kk(op);
    if kk == 0x9E || kk == 0xA1 {
        Step {
            cpu: if skips(c, keys, op) { jump(c, c.pc + 4) } else { advance(c) },
            mem,
            effect: Effect::Proceed,
        }
    } else {
        Step { cpu: advance(c), mem, effect: Effect::UnknownOpcode(op) }
    }
}

/// Memory after `Fx55`: V0..=Vx stored from I on, wrapping at the end.
pub open spec fn stored_registers(mem: Seq<u8>, i: int, v: Seq<u8>, x: int) -> Seq<u8> {
    Seq::new(
        mem.len(),
        |a: int|
            {
                let off = (a - i) % 4096;
                if off <= x {
                    v[off]
                } else {
                    mem[a]
                }
            },
    )
}

/// Registers after `Fx65`: V0..=Vx loaded from I on.
pub open spec fn loaded_registers(mem: Seq<u8>, i: int, v: Seq<u8>, x: int) -> Seq<u8> {
    Seq::new(v.len(), |r: int| if r <= x { mem_read(mem, i + r) } else { v[r] })
}

/// Memory after `Fx33`: the hundreds, tens and units of `value` at I, I+1, I+2.
pub open spec fn stored_bcd(mem: Seq<u8>, i: int, value: u8) -> Seq<u8> {
    let m1 = mem_write(mem, i, value / 100);
    let m2 = mem_write(m1, i + 1, (value / 10) % 10);
    mem_write(m2, i + 2, value % 10)
}

/// The `Fxkk` instructions: timers, key wait, index register and
/// register/memory transfers.
pub open spec fn step_misc(c: CpuView, mem: Seq<u8>, keys: Seq<bool>, op: u16) -> Step {
    let x = op_x(op);
    let kk = op_kk(op);
    let vx = c.v[x];
    if kk == 0x07 {
        Step { cpu: CpuView { v: c.v.update(x, c.delay_timer), ..advance(c) }, mem, effect: Effect::Proceed }
    } else if kk == 0x0A {
        match first_pressed(keys) {
            Some(k) => Step {
                cpu: CpuView { v: c.v.update(x, k), ..advance(c) },
                mem,
                effect: Effect::Proceed,
            },
            None => Step { cpu: c, mem, effect: Effect::Proceed },
        }
    } else if kk == 0x15 {
        Step { cpu: CpuView { delay_timer: vx, ..advance(c) }, mem, effect: Effect::Proceed }
    } else if kk == 0x18 {
        Step { cpu: CpuView { sound_timer: vx, ..advance(c) }, mem, effect: Effect::Proceed }
    } else if kk == 0x1E {
        Step { cpu: CpuView { i: (c.i + vx) as u16, ..advance(c) }, mem, effect: Effect::Proceed }
    } else if kk == 0x29 {
        Step { cpu: CpuView { i: ((vx % 16) * 5) as u16, ..advance(c) }, mem, effect: Effect::Proceed }
    } else if kk == 0x33 {
        Step { cpu: advance(c), mem: stored_bcd(mem, c.i as int, vx), effect: Effect::Proceed }
    } else if kk == 0x55 {
        Step { cpu: advance(c), mem: stored_registers(mem, c.i as int, c.v, x), effect: Effect::Proceed }
    } else if kk == 0x65 {
        Step {
            cpu: CpuView { v: loaded_registers(mem, c.i as int, c.v, x), ..advance(c) },
            mem,
            effect: Effect::Proceed,
        }
    } else {
        Step { cpu: advance(c), mem, effect: Effect::UnknownOpcode(op) }
    }
}

/// One instruction of the machine.  `rnd` is the random byte that `Cxkk`
/// uses; no other instruction reads it.
#[verifier::opaque]
pub open spec fn step(c: CpuView, mem: Seq<u8>, keys: Seq<bool>, op: u16, rnd: u8) -> Step {
    let g = op_group(op);
    if g == 0x0 {
        step_system(c, mem, op)
    } else if g == 0x8 {
        Step {
            cpu: CpuView { v: alu_registers(c.v, op), ..advance(c) },
            mem,
            effect: if alu_known(op) { Effect::Proceed } else { Effect::UnknownOpcode(op) },
        }
    } else if g == 0xD {
        Step { cpu: step_draw(c, mem, op), mem, effect: Effect::Proceed }
    } else if g == 0xE {
        step_keys(c, mem, keys, op)
    } else if g == 0xF {
        step_misc(c, mem, keys, op)
    } else {
        Step { cpu: step_basic(c, keys, op, rnd), mem, effect: Effect::Proceed }
    }
}

/// Registers of a machine that has just been switched on.
pub open spec fn initial_cpu(screen: Seq<Seq<bool>>) -> CpuView {
    CpuView {
        pc: 0x200,
        i: 0,
        v: Seq::new(16, |r: int| 0u8),
        stack: Seq::empty(),
        delay_timer: 0,
        sound_timer: 0,
        screen,
    }
}

/// A timer after one tick: it counts down to zero and stays there.
pub open spec fn tick(t: u8) -> u8 {
    if t > 0 {
        (t - 1) as u8
    } else {
        0
    }
}

proof fn lemma_decode(op: u16)
    ensures
        (op & 0xF000) >> 12 == op_group(op),
        (op & 0x0F00) >> 8 == op_x(op),
        (op & 0x00F0) >> 4 == op_y(op),
        op & 0x000F == op_n(op),
        op & 0x00FF == op_kk(op),
        op & 0x0FFF == op_nnn(op),
        op_group(op) < 16,
        op_x(op) < 16,
        op_y(op) < 16,
        op_n(op) < 16,
{
    assert((op & 0xF000) >> 12 == op / 4096) by (bit_vector);
    assert((op & 0x0F00) >> 8 == (op / 256) % 16) by (bit_vector);
    assert((op & 0x00F0) >> 4 == (op / 16) % 16) by (bit_vector);
    assert(op & 0x000F == op % 16) by (bit_vector);
    assert(op & 0x00FF == op % 256) by (bit_vector);
    assert(op & 0x0FFF == op % 4096) by (bit_vector);
}

/// The processor: program counter, index register, sixteen byte registers,
/// return stack, two timers and the frame buffer.
pub struct Chip8CPU {
    pub pc: u16,
    i: u16,
    v: [u8; 16],
    stack: Vec<u16>,
    delay_timer: u8,
    sound_timer: u8,
    pub display: Chip8Display,
}

impl View for Chip8CPU {
    type V = CpuView;

    closed spec fn view(&self) -> CpuView {
        CpuView {
            pc: self.pc,
            i: self.i,
            v: self.v@,
            stack: self.stack@,
            delay_timer: self.delay_timer,
            sound_timer: self.sound_timer,
            screen: self.display@,
        }
    }
}

impl Chip8CPU {
    /// There are always sixteen registers and a screen of 32 rows of 64.
    pub proof fn lemma_view(&self)
        ensures
            self@.v.len() == 16,
            crate::display::is_screen(self@.screen),
    {
    }

    /// A processor at the program start with cleared registers, an empty
    /// stack and stopped timers, drawing on `display`.
    pub fn new(display: Chip8Display) -> (cpu: Self)
        ensures
            cpu@ == initial_cpu(display@),
    {
        let cpu = Self {
            pc: 0x200,
            v: [0; 16],
            i: 0,
            stack: Vec::new(),
            delay_timer: 0,
            sound_timer: 0,
            display,
        };
        assert(cpu@ =~= initial_cpu(display@));
        cpu
    }
}

/// Within the 4096 memory cells (addresses wrapping), the cell `off`
/// places after `start` is `(start + off) % 4096`, and it is the only cell
/// at that distance.
proof fn lemma_wrap_mem(start: int, off: int, a: int)
    requires
        0 <= start,
        0 <= off < 4096,
        0 <= a < 4096,
    ensures
        ((start + off) % 4096 - start) % 4096 == off,
        (a - start) % 4096 == off <==> a == (start + off) % 4096,
{
}

impl Chip8CPU {
    /// `Dxyn` without the program counter: draws and sets VF.
    fn draw_sprite(&mut self, x: usize, y: usize, height: u8, ram: &Chip8Ram)
        requires
            x < 16,
            y < 16,
            height < 16,
        ensures
            final(self)@ == (CpuView {
                screen: drawn(old(self)@.screen, ram@, old(self)@.i as int, old(self)@.v[x as int], old(self)@.v[y as int], height as int),
                v: old(self)@.v.update(15, if collides(old(self)@.screen, ram@, old(self)@.i as int, old(self)@.v[x as int], old(self)@.v[y as int], height as int) { 1u8 } else { 0u8 }),
                ..old(self)@
            }),
    {
        let start_x: u8 = self.v[x];
        let start_y: u8 = self.v[y];
        self.v[0xF] = 0;
        let collision = self.display.draw(ram, self.i as usize, start_x, start_y, height);
        if collision {
            self.v[0xF] = 1;
        }
    }

    /// `00E0`, `00EE` and the unknown `0nnn`.
    fn exec_system(&mut self, opcode: u16) -> (effect: Effect)
        requires
            op_group(opcode) == 0,
            old(self)@.pc + 2 <= 0xFFFF,
            op_kk(opcode) == 0xEE ==> old(self)@.stack.len() > 0,
        ensures
            final(self)@ == step_system(old(self)@, Seq::empty(), opcode).cpu,
            effect == step_system(old(self)@, Seq::empty(), opcode).effect,
    {
        proof {
            lemma_decode(opcode);
        }
        let kk: u8 = (opcode & 0x00FF) as u8;
        match kk {
            0xE0 => {
                self.pc = self.pc + 2;
                Effect::ClearScreen
            },
            0xEE => {
                let ret: u16 = self.stack.pop().unwrap();
                self.pc = ret;
                Effect::Proceed
            },
            _ => {
                self.pc = self.pc + 2;
                Effect::UnknownOpcode(opcode)
            },
        }
    }

    /// Jumps, calls, register skips, `6xkk`, `7xkk`, `Annn`, `Bnnn`, `Cxkk`.
    fn exec_basic(&mut self, opcode: u16, rand_byte: u8)
        requires
            op_group(opcode) != 0x0 && op_group(opcode) != 0x8 && op_group(opcode) != 0xD
                && op_group(opcode) != 0xE && op_group(opcode) != 0xF,
            old(self)@.pc + 2 <= 0xFFFF,
            skips(old(self)@, Seq::empty(), opcode) ==> old(self)@.pc + 4 <= 0xFFFF,
        ensures
            final(self)@ == step_basic(old(self)@, Seq::empty(), opcode, rand_byte),
    {
        proof {
            lemma_decode(opcode);
        }
        let x: usize = ((opcode & 0x0F00) >> 8) as usize;
        let y: usize = ((opcode & 0x00F0) >> 4) as usize;
        let kk: u8 = (opcode & 0x00FF) as u8;
        let nnn: u16 = opcode & 0x0FFF;
        let mut new_pc: u16 = self.pc + 2;
        match (opcode & 0xF000) >> 12 {
            0x1 => new_pc = nnn,
            0x2 => {
                self.stack.push(self.pc + 2);
                new_pc = nnn;
            },
            0x3 => {
                if self.v[x] == kk {
                    new_pc = self.pc + 4;
                }
            },
            0x4 => {
                if self.v[x] != kk {
                    new_pc = self.pc + 4;
                }
            },
            0x5 => {
                if self.v[x] == self.v[y] {
                    new_pc = self.pc + 4;
                }
            },
            0x6 => self.v[x] = kk,
            0x7 => self.v[x] = self.v[x].wrapping_add(kk),
            0x9 => {
                if self.v[x] != self.v[y] {
                    new_pc = self.pc + 4;
                }
            },
            0xA => self.i = nnn,
            0xB => new_pc = nnn + self.v[0] as u16,
            _ => self.v[x] = rand_byte & kk,
        }
        self.pc = new_pc;
    }

    /// The arithmetic and logic group `8xyn`.
    fn exec_alu(&mut self, opcode: u16) -> (effect: Effect)
        requires
            op_group(opcode) == 0x8,
            old(self)@.pc + 2 <= 0xFFFF,
        ensures
            final(self)@ == (CpuView { v: alu_registers(old(self)@.v, opcode), ..advance(old(self)@) }),
            effect == (if alu_known(opcode) { Effect::Proceed } else { Effect::UnknownOpcode(opcode) }),
    {
        proof {
            lemma_decode(opcode);
        }
        let x: usize = ((opcode & 0x0F00) >> 8) as usize;
        let y: usize = ((opcode & 0x00F0) >> 4) as usize;
        let n: u8 = (opcode & 0x000F) as u8;
        let mut effect = Effect::Proceed;
        match n {
            0x0 => self.v[x] = self.v[y],
            0x1 => self.v[x] = self.v[x] | self.v[y],
            0x2 => self.v[x] = self.v[x] & self.v[y],
            0x3 => self.v[x] = self.v[x] ^ self.v[y],
            0x4 => {
                self.v[0xF] = 0;
                if self.v[x] as i32 + self.v[y] as i32 > 255 {
                    self.v[0xF] = 1;
                }
                self.v[x] = self.v[x].wrapping_add(self.v[y]);
            },
            0x5 => {
                self.v[0xF] = 0;
                if self.v[x] > self.v[y] {
                    self.v[0xF] = 1;
                }
                self.v[x] = self.v[x].wrapping_sub(self.v[y]);
            },
            0x6 => {
                let vx: u8 = self.v[x];
                assert(vx & 0x01 == vx % 2) by (bit_vector);
                self.v[0xF] = vx & 0x01;
                let vx1: u8 = self.v[x];
                assert(vx1 >> 1 == vx1 / 2) by (bit_vector);
                self.v[x] = vx1 >> 1;
            },
            0x7 => {
                self.v[0xF] = 0;
                if self.v[y] > self.v[x] {
                    self.v[0xF] = 1;
                }
                self.v[x] = self.v[y].wrapping_sub(self.v[x]);
            },
            0xE => {
                let vx: u8 = self.v[x];
                assert(vx & 0x80 == (if vx >= 128 { 0x80u8 } else { 0u8 })) by (bit_vector);
                self.v[0xF] = vx & 0x80;
                let vx1: u8 = self.v[x];
                assert(vx1 << 1 == ((vx1 * 2) % 256) as u8) by (bit_vector);
                self.v[x] = vx1 << 1;
            },
            _ => effect = Effect::UnknownOpcode(opcode),
        }
        self.pc = self.pc + 2;
        effect
    }

    /// `Ex9E` and `ExA1`, and the unknown `Exkk`.
    fn exec_keys(&mut self, opcode: u16, keyboard: &mut Chip8Keyboard) -> (effect: Effect)
        requires
            op_group(opcode) == 0xE,
            old(self)@.pc + 2 <= 0xFFFF,
            skips(old(self)@, old(keyboard)@, opcode) ==> old(self)@.pc + 4 <= 0xFFFF,
            (op_kk(opcode) == 0x9E || op_kk(opcode) == 0xA1) ==> old(self)@.v[op_x(opcode)] < 16,
        ensures
            final(keyboard)@ == old(keyboard)@,
            final(self)@ == step_keys(old(self)@, Seq::empty(), old(keyboard)@, opcode).cpu,
            effect == step_keys(old(self)@, Seq::empty(), old(keyboard)@, opcode).effect,
    {
        proof {
            lemma_decode(opcode);
        }
        let x: usize = ((opcode & 0x0F00) >> 8) as usize;
        let kk: u8 = (opcode & 0x00FF) as u8;
        let mut new_pc: u16 = self.pc + 2;
        let mut effect = Effect::Proceed;
        match kk {
            0x9E => {
                if keyboard.is_pressed(self.v[x]) {
                    new_pc = self.pc + 4;
                }
            },
            0xA1 => {
                if !keyboard.is_pressed(self.v[x]) {
                    new_pc = self.pc + 4;
                }
            },
            _ => effect = Effect::UnknownOpcode(opcode),
        }
        self.pc = new_pc;
        effect
    }
}

impl Chip8CPU {
    /// The `Fxkk` group.
    fn exec_misc(&mut self, opcode: u16, ram: &mut Chip8Ram, keyboard: &mut Chip8Keyboard) -> (effect: Effect)
        requires
            op_group(opcode) == 0xF,
            old(self)@.pc + 2 <= 0xFFFF,
            op_kk(opcode) == 0x1E ==> old(self)@.i + old(self)@.v[op_x(opcode)] <= 0xFFFF,
        ensures
            final(keyboard)@ == old(keyboard)@,
            step_misc(old(self)@, old(ram)@, old(keyboard)@, opcode) == (Step {
                cpu: final(self)@,
                mem: final(ram)@,
                effect,
            }),
    {
        proof {
            lemma_decode(opcode);
            ram.lemma_len();
        }
        let x: usize = ((opcode & 0x0F00) >> 8) as usize;
        let kk: u8 = (opcode & 0x00FF) as u8;
        let mut new_pc: u16 = self.pc + 2;
        let mut effect = Effect::Proceed;
        match kk {
            0x07 => self.v[x] = self.delay_timer,
            0x0A => {
                if let Some(key) = keyboard.is_n_key_pressed() {
                    self.v[x] = key;
                } else {
                    new_pc = self.pc;
                }
            },
            0x15 => self.delay_timer = self.v[x],
            0x18 => self.sound_timer = self.v[x],
            0x1E => self.i += self.v[x] as u16,
            0x29 => {
                let vx: u8 = self.v[x];
                assert((vx as u16 & 0x0F) == vx % 16) by (bit_vector);
                self.i = (vx as u16 & 0x0F) * 5;
            },
            0x33 => {
                ram.write(self.i as usize, self.v[x] / 100);
                ram.write((self.i as usize) + 1, (self.v[x] / 10) % 10);
                ram.write((self.i as usize) + 2, self.v[x] % 10);
            },
            0x55 => {
                let ghost mem = ram@;
                let ghost v = self@.v;
                let ghost i = self.i as int;
                let mut offset: usize = 0;
                assert(ram@ =~= stored_registers(mem, i, v, -1));
                while offset < x + 1
                    invariant
                        x < 16,
                        offset <= x + 1,
                        mem.len() == 4096,
                        ram@.len() == 4096,
                        self@ == old(self)@,
                        v == self@.v,
                        i == self.i,
                        ram@ == stored_registers(mem, i, v, offset - 1),
                    decreases x + 1 - offset,
                {
                    ram.write(self.i as usize + offset, self.v[offset]);
                    proof {
                        lemma_wrap_mem(i, offset as int, 0);
                        assert forall|a: int| 0 <= a < 4096 implies ram@[a] == stored_registers(mem, i, v, offset as int)[a] by {
                            lemma_wrap_mem(i, offset as int, a);
                        }
                        assert(ram@ =~= stored_registers(mem, i, v, offset as int));
                    }
                    offset = offset + 1;
                }
            },
            0x65 => {
                let ghost mem = ram@;
                let ghost v = self@.v;
                let mut offset: usize = 0;
                assert(self@.v =~= loaded_registers(mem, self.i as int, v, -1));
                while offset < x + 1
                    invariant
                        x < 16,
                        offset <= x + 1,
                        mem == ram@,
                        v.len() == 16,
                        self@ == (CpuView { v: loaded_registers(mem, self.i as int, v, offset - 1), ..old(self)@ }),
                    decreases x + 1 - offset,
                {
                    self.v[offset] = ram.read(self.i as usize + offset);
                    assert(self@.v =~= loaded_registers(mem, self.i as int, v, offset as int));
                    offset = offset + 1;
                }
            },
            _ => effect = Effect::UnknownOpcode(opcode),
        }
        self.pc = new_pc;
        effect
    }
}

impl Chip8CPU {
    /// Runs one instruction, with `rand_byte` as the random byte that
    /// `Cxkk` masks.  The state changes as `step` says; the keypad is read,
    /// never changed.
    pub fn execute_with_random(
        &mut self,
        opcode: u16,
        ram: &mut Chip8Ram,
        keyboard: &mut Chip8Keyboard,
        rand_byte: u8,
    ) -> (effect: Effect)
        requires
            executable(old(self)@, old(keyboard)@, opcode),
        ensures
            final(keyboard)@ == old(keyboard)@,
            step(old(self)@, old(ram)@, old(keyboard)@, opcode, rand_byte) == (Step {
                cpu: final(self)@,
                mem: final(ram)@,
                effect,
            }),
    {
        proof {
            reveal(step);
            lemma_decode(opcode);
        }
        let x: usize = ((opcode & 0x0F00) >> 8) as usize;
        let y: usize = ((opcode & 0x00F0) >> 4) as usize;
        let n: u8 = (opcode & 0x000F) as u8;
        match (opcode & 0xF000) >> 12 {
            0x0 => self.exec_system(opcode),
            0x8 => self.exec_alu(opcode),
            0xD => {
                self.draw_sprite(x, y, n, ram);
                self.pc = self.pc + 2;
                Effect::Proceed
            },
            0xE => self.exec_keys(opcode, keyboard),
            0xF => self.exec_misc(opcode, ram, keyboard),
            _ => {
                self.exec_basic(opcode, rand_byte);
                Effect::Proceed
            },
        }
    }

    /// Runs one instruction.  `Cxkk` draws its byte from the random source;
    /// every other instruction changes the state exactly as `step` says.
    pub fn execute(&mut self, opcode: u16, ram: &mut Chip8Ram, keyboard: &mut Chip8Keyboard) -> (effect: Effect)
        requires
            executable(old(self)@, old(keyboard)@, opcode),
        ensures
            final(keyboard)@ == old(keyboard)@,
            op_group(opcode) != 0xC ==> step(old(self)@, old(ram)@, old(keyboard)@, opcode, 0) == (Step {
                cpu: final(self)@,
                mem: final(ram)@,
                effect,
            }),
            op_group(opcode) == 0xC ==> exists|r: u8|
                #[trigger] step(old(self)@, old(ram)@, old(keyboard)@, opcode, r) == (Step {
                    cpu: final(self)@,
                    mem: final(ram)@,
                    effect,
                }),
    {
        proof {
            lemma_decode(opcode);
        }
        let rand_byte: u8 = if (opcode & 0xF000) >> 12 == 0xC {
            get_rand_byte()
        } else {
            0
        };
        self.execute_with_random(opcode, ram, keyboard, rand_byte)
    }

    /// The opcode at the program counter: two bytes, high byte first.
    pub fn fetch_opcode(&self, ram: &Chip8Ram) -> (opcode: u16)
        ensures
            opcode == fetch(ram@, self@.pc),
    {
        let hi: u8 = ram.read(self.pc as usize);
        let lo: u8 = ram.read(self.pc as usize + 1);
        assert(((hi as u16) << 8) | (lo as u16) == (hi * 256 + lo) as u16) by (bit_vector);
        ((hi as u16) << 8) | lo as u16
    }

    /// Fetches the instruction at the program counter and runs it.
    pub fn cycle(&mut self, ram: &mut Chip8Ram, keyboard: &mut Chip8Keyboard) -> (effect: Effect)
        requires
            executable(old(self)@, old(keyboard)@, fetch(old(ram)@, old(self)@.pc)),
        ensures
            final(keyboard)@ == old(keyboard)@,
            op_group(fetch(old(ram)@, old(self)@.pc)) != 0xC ==> step(
                old(self)@,
                old(ram)@,
                old(keyboard)@,
                fetch(old(ram)@, old(self)@.pc),
                0,
            ) == (Step { cpu: final(self)@, mem: final(ram)@, effect }),
            op_group(fetch(old(ram)@, old(self)@.pc)) == 0xC ==> exists|r: u8|
                #[trigger] step(
                    old(self)@,
                    old(ram)@,
                    old(keyboard)@,
                    fetch(old(ram)@, old(self)@.pc),
                    r,
                ) == (Step { cpu: final(self)@, mem: final(ram)@, effect }),
    {
        let opcode: u16 = self.fetch_opcode(ram);
        self.execute(opcode, ram, keyboard)
    }

    /// Whether `opcode` can run to its end in the current state (see
    /// `executable`); the surroundings test this before running it.
    pub fn can_execute(&self, opcode: u16, keyboard: &mut Chip8Keyboard) -> (ok: bool)
        ensures
            final(keyboard)@ == old(keyboard)@,
            ok == executable(self@, old(keyboard)@, opcode),
    {
        proof {
            lemma_decode(opcode);
        }
        let x: usize = ((opcode & 0x0F00) >> 8) as usize;
        let y: usize = ((opcode & 0x00F0) >> 4) as usize;
        let kk: u8 = (opcode & 0x00FF) as u8;
        let group: u16 = (opcode & 0xF000) >> 12;
        if self.pc > 0xFFFD {
            return false;
        }
        let vx: u8 = self.v[x];
        let vy: u8 = self.v[y];
        let key_test: bool = group == 0xE && (kk == 0x9E || kk == 0xA1);
        if key_test && vx >= 16 {
            return false;
        }
        let skip: bool = if group == 0x3 {
            vx == kk
        } else if group == 0x4 {
            vx != kk
        } else if group == 0x5 {
            vx == vy
        } else if group == 0x9 {
            vx != vy
        } else if key_test {
            let held: bool = keyboard.is_pressed(vx);
            if kk == 0x9E { held } else { !held }
        } else {
            false
        };
        if skip && self.pc > 0xFFFB {
            return false;
        }
        if group == 0x0 && kk == 0xEE && self.stack.len() == 0 {
            return false;
        }
        if group == 0xF && kk == 0x1E && self.i as u32 + vx as u32 > 0xFFFF {
            return false;
        }
        true
    }

    /// One tick of the 60 Hz timers: each counts down towards zero.
    pub fn update_timers(&mut self)
        ensures
            final(self)@ == (CpuView {
                delay_timer: tick(old(self)@.delay_timer),
                sound_timer: tick(old(self)@.sound_timer),
                ..old(self)@
            }),
    {
        if self.delay_timer > 0 {
            self.delay_timer -= 1;
        }
        if self.sound_timer > 0 {
            self.sound_timer -= 1;
        }
    }
}

/// A call followed by a return resumes at the instruction after the call
/// with the stack as it was: every register ends as if the call had been
/// an instruction that does nothing.
pub proof fn lemma_call_then_return(c: CpuView, mem: Seq<u8>, keys: Seq<bool>, call: u16, ret: u16, r1: u8, r2: u8)
    requires
        op_group(call) == 0x2,
        ret == 0x00EE,
        c.pc + 2 <= 0xFFFF,
    ensures
        step(step(c, mem, keys, call, r1).cpu, mem, keys, ret, r2) == (Step {
            cpu: advance(c),
            mem,
            effect: Effect::Proceed,
        }),
{
    reveal(step);
    let s1 = step(c, mem, keys, call, r1);
    assert(s1.cpu.stack.drop_last() =~= c.stack);
    assert(step(s1.cpu, mem, keys, ret, r2).cpu =~= advance(c));
}

/// Storing V0..=Vx with `Fx55` and loading them back with `Fx65` from the
/// same address leaves the registers as they were.
pub proof fn lemma_store_then_load(c: CpuView, mem: Seq<u8>, keys: Seq<bool>, store: u16, load: u16, r1: u8, r2: u8)
    requires
        c.v.len() == 16,
        mem.len() == 4096,
        c.pc + 2 <= 0xFFFF,
        op_group(store) == 0xF && op_kk(store) == 0x55,
        op_group(load) == 0xF && op_kk(load) == 0x65,
        op_x(store) == op_x(load),
    ensures
        step(step(c, mem, keys, store, r1).cpu, step(c, mem, keys, store, r1).mem, keys, load, r2).cpu.v
            == c.v,
{
    reveal(step);
    let s1 = step(c, mem, keys, store, r1);
    let x = op_x(store);
    assert forall|r: int| 0 <= r <= x implies #[trigger] mem_read(s1.mem, c.i + r) == c.v[r] by {
        lemma_wrap_mem(c.i as int, r, (c.i + r) % 4096);
    }
    assert(loaded_registers(s1.mem, c.i as int, c.v, x) =~= c.v);
}

/// `8xy4` adds with carry: for operands other than VF, the sum is the new
/// Vx plus 256 times the new VF, which is 0 or 1.
pub proof fn lemma_add_carry(c: CpuView, mem: Seq<u8>, keys: Seq<bool>, op: u16, r: u8)
    requires
        c.v.len() == 16,
        op_group(op) == 0x8 && op_n(op) == 0x4,
        op_x(op) != 15,
        op_y(op) != 15,
    ensures
        ({
            let v = step(c, mem, keys, op, r).cpu.v;
            &&& v[op_x(op)] + 256 * v[15] == c.v[op_x(op)] + c.v[op_y(op)]
            &&& v[15] <= 1
        }),
{
    reveal(step);
    let x = op_x(op);
    let y = op_y(op);
    let v = c.v;
    let v0 = v.update(15, 0u8);
    let v1 = v0.update(15, if v0[x] + v0[y] > 255 { 1u8 } else { 0u8 });
    assert(v0[x] == v[x] && v0[y] == v[y]);
    assert(v1[x] == v[x] && v1[y] == v[y]);
    assert(alu_registers(v, op) == v1.update(x, ((v1[x] + v1[y]) % 256) as u8));
    assert(step(c, mem, keys, op, r).cpu.v == alu_registers(v, op));
}

/// `Fx33` stores the three decimal digits of Vx, most significant first.
pub proof fn lemma_bcd_digits(c: CpuView, mem: Seq<u8>, keys: Seq<bool>, op: u16, r: u8)
    requires
        c.v.len() == 16,
        mem.len() == 4096,
        op_group(op) == 0xF && op_kk(op) == 0x33,
    ensures
        ({
            let m = step(c, mem, keys, op, r).mem;
            let d0 = mem_read(m, c.i as int);
            let d1 = mem_read(m, c.i + 1);
            let d2 = mem_read(m, c.i + 2);
            &&& 100 * d0 + 10 * d1 + d2 == c.v[op_x(op)]
            &&& d0 < 10 && d1 < 10 && d2 < 10
        }),
{
    reveal(step);
    lemma_wrap_mem(c.i as int, 0, (c.i + 1) % 4096);
    lemma_wrap_mem(c.i as int, 0, (c.i + 2) % 4096);
    lemma_wrap_mem(c.i as int, 1, (c.i + 2) % 4096);
}

/// `3xkk` and `4xkk` on the same register and byte: exactly one of them
/// skips the next instruction.
pub proof fn lemma_skip_equal_or_not(c: CpuView, mem: Seq<u8>, keys: Seq<bool>, eq: u16, ne: u16, r: u8)
    requires
        op_group(eq) == 0x3,
        op_group(ne) == 0x4,
        op_x(eq) == op_x(ne),
        op_kk(eq) == op_kk(ne),
        c.pc + 4 <= 0xFFFF,
    ensures
        step(c, mem, keys, eq, r).cpu.pc + step(c, mem, keys, ne, r).cpu.pc == 2 * c.pc + 6,
        step(c, mem, keys, eq, r).cpu.pc != step(c, mem, keys, ne, r).cpu.pc,
{
    reveal(step);
}

/// `Cxkk` leaves in Vx only bits that are set in kk, whatever the random
/// byte was.
pub proof fn lemma_random_masked(c: CpuView, mem: Seq<u8>, keys: Seq<bool>, op: u16, r: u8)
    requires
        c.v.len() == 16,
        op_group(op) == 0xC,
    ensures
        step(c, mem, keys, op, r).cpu.v[op_x(op)] & !(op_kk(op) as u8) == 0,
{
    reveal(step);
    let kk = op_kk(op) as u8;
    assert((r & kk) & !kk == 0) by (bit_vector);
}

/// `Fx0A` with no key held changes nothing, the program counter included,
/// so the instruction runs again: the machine waits for a key.
pub proof fn lemma_wait_for_key(c: CpuView, mem: Seq<u8>, keys: Seq<bool>, op: u16, r: u8)
    requires
        op_group(op) == 0xF && op_kk(op) == 0x0A,
        forall|k: int| 0 <= k < 16 ==> !keys[k],
    ensures
        step(c, mem, keys, op, r) == (Step { cpu: c, mem, effect: Effect::Proceed }),
{
    reveal(step);
}

/// An unknown opcode, and `00E0` too (which only asks the surroundings to
/// clear the canvas), leave registers, screen and memory as they were and
/// move on to the next instruction.
pub proof fn lemma_skipped_instructions(c: CpuView, mem: Seq<u8>, keys: Seq<bool>, op: u16, r: u8)
    requires
        step(c, mem, keys, op, r).effect != Effect::Proceed,
    ensures
        step(c, mem, keys, op, r).cpu == advance(c),
        step(c, mem, keys, op, r).mem == mem,
{
    reveal(step);
    if op_group(op) == 0x8 {
        assert(!alu_known(op));
        assert(alu_registers(c.v, op) == c.v);
    }
}

/// Only `Fx33` and `Fx55` write to memory.
pub proof fn lemma_memory_writers(c: CpuView, mem: Seq<u8>, keys: Seq<bool>, op: u16, r: u8)
    requires
        !(op_group(op) == 0xF && (op_kk(op) == 0x33 || op_kk(op) == 0x55)),
    ensures
        step(c, mem, keys, op, r).mem == mem,
{
    reveal(step);
}

/// Only `Cxkk` reads the random byte.
pub proof fn lemma_random_only_for_cxkk(c: CpuView, mem: Seq<u8>, keys: Seq<bool>, op: u16, r1: u8, r2: u8)
    requires
        op_group(op) != 0xC,
    ensures
        step(c, mem, keys, op, r1) == step(c, mem, keys, op, r2),
{
    reveal(step);
}

impl Chip8CPU {
    /// Register V`x`.
    pub fn register(&self, x: usize) -> (value: u8)
        requires
            x < 16,
        ensures
            value == self@.v[x as int],
    {
        self.v[x]
    }

    /// The index register I.
    pub fn index_register(&self) -> (value: u16)
        ensures
            value == self@.i,
    {
        self.i
    }

    /// The delay timer.
    pub fn delay_timer(&self) -> (value: u8)
        ensures
            value == self@.delay_timer,
    {
        self.delay_timer
    }

    /// The sound timer.
    pub fn sound_timer(&self) -> (value: u8)
        ensures
            value == self@.sound_timer,
    {
        self.sound_timer
    }

    /// The return addresses, the most recent last.
    pub fn stack(&self) -> (s: &[u16])
        ensures
            s@ == self@.stack,
    {
        self.stack.as_slice()
    }
}

/// A timer after `n` ticks.
pub open spec fn ticks(t: u8, n: nat) -> u8
    decreases n,
{
    if n == 0 {
        t
    } else {
        tick(ticks(t, (n - 1) as nat))
    }
}

/// The registers after one timer tick.
pub open spec fn ticked(c: CpuView) -> CpuView {
    CpuView { delay_timer: tick(c.delay_timer), sound_timer: tick(c.sound_timer), ..c }
}

/// A timer counts down one per tick and then stays at zero; so after at
/// least as many ticks as the larger of the two timers, both are zero.
pub proof fn lemma_timers_run_out(c: CpuView, n: nat)
    ensures
        ticks(c.delay_timer, n) == (if n >= c.delay_timer { 0 } else { c.delay_timer - n }),
        ticks(c.sound_timer, n) == (if n >= c.sound_timer { 0 } else { c.sound_timer - n }),
        n >= c.delay_timer && n >= c.sound_timer ==> ticks(c.delay_timer, n) == 0 && ticks(
            c.sound_timer,
            n,
        ) == 0,
{
    lemma_ticks(c.delay_timer, n);
    lemma_ticks(c.sound_timer, n);
}

proof fn lemma_ticks(t: u8, n: nat)
    ensures
        ticks(t, n) == (if n >= t { 0 } else { t - n }),
    decreases n,
{
    if n > 0 {
        lemma_ticks(t, (n - 1) as nat);
    }
}

/// Running the same `Dxyn` twice, with x and y other than VF, restores the
/// screen; the second run sets VF to 1 exactly when a set bit of the sprite
/// falls on a pixel that was dark before the first run, and to 0 otherwise.
pub proof fn lemma_draw_instruction_twice(c: CpuView, mem: Seq<u8>, keys: Seq<bool>, op: u16, r1: u8, r2: u8)
    requires
        c.v.len() == 16,
        is_screen(c.screen),
        op_group(op) == 0xD,
        op_x(op) != 15,
        op_y(op) != 15,
    ensures
        ({
            let s1 = step(c, mem, keys, op, r1);
            let s2 = step(s1.cpu, s1.mem, keys, op, r2);
            &&& s2.cpu.screen == c.screen
            &&& s2.cpu.v[15] == (if lands_on_dark(
                c.screen,
                mem,
                c.i as int,
                c.v[op_x(op)],
                c.v[op_y(op)],
                op_n(op),
            ) {
                1u8
            } else {
                0u8
            })
        }),
{
    reveal(step);
    let s1 = step(c, mem, keys, op, r1);
    assert(s1.cpu.v[op_x(op)] == c.v[op_x(op)]);
    assert(s1.cpu.v[op_y(op)] == c.v[op_y(op)]);
    lemma_draw_twice(c.screen, mem, c.i as int, c.v[op_x(op)], c.v[op_y(op)], op_n(op));
}

/// What a run of instructions leaves: registers, memory, the effects of
/// the instructions that ran, and the opcode that could not run if the run
/// stopped early.
#[verifier::ext_equal]
pub struct Run {
    pub cpu: CpuView,
    pub mem: Seq<u8>,
    pub effects: Seq<Effect>,
    pub stuck: Option<u16>,
}

/// Fetching and running up to `n` instructions, the j-th `Cxkk` (counting
/// from 0) using `rnds[j]`; the run stops at the first instruction that
/// cannot run to its end, without running it.
pub open spec fn run(c: CpuView, mem: Seq<u8>, keys: Seq<bool>, rnds: Seq<u8>, n: nat) -> Run
    decreases n,
{
    if n == 0 {
        Run { cpu: c, mem, effects: Seq::empty(), stuck: None }
    } else {
        let prev = run(c, mem, keys, rnds, (n - 1) as nat);
        if prev.stuck is Some {
            prev
        } else {
            let op = fetch(prev.mem, prev.cpu.pc);
            if !executable(prev.cpu, keys, op) {
                Run { stuck: Some(op), ..prev }
            } else {
                let s = step(prev.cpu, prev.mem, keys, op, rnds[n - 1]);
                Run { cpu: s.cpu, mem: s.mem, effects: prev.effects.push(s.effect), stuck: None }
            }
        }
    }
}

/// A run of `n` instructions only reads the first `n` random bytes.
proof fn lemma_run_prefix(c: CpuView, mem: Seq<u8>, keys: Seq<bool>, a: Seq<u8>, b: Seq<u8>, n: nat)
    requires
        forall|j: int| 0 <= j < n ==> a[j] == b[j],
    ensures
        run(c, mem, keys, a, n) == run(c, mem, keys, b, n),
    decreases n,
{
    if n > 0 {
        lemma_run_prefix(c, mem, keys, a, b, (n - 1) as nat);
    }
}

/// A run that has stopped stays stopped.
proof fn lemma_run_stuck(c: CpuView, mem: Seq<u8>, keys: Seq<bool>, rnds: Seq<u8>, k: nat, n: nat)
    requires
        k <= n,
        run(c, mem, keys, rnds, k).stuck is Some,
    ensures
        run(c, mem, keys, rnds, n) == run(c, mem, keys, rnds, k),
    decreases n - k,
{
    if n > k {
        lemma_run_stuck(c, mem, keys, rnds, k, (n - 1) as nat);
    }
}

/// Instructions run per 60 Hz frame.
pub const CYCLES_PER_FRAME: usize = 16;

/// What a frame leaves to the surroundings: the effect of each instruction
/// that ran, in order, and the opcode that could not run, if one stopped
/// the frame.
pub struct Frame {
    pub effects: Vec<Effect>,
    pub stuck: Option<u16>,
}

/// Whether a frame ending in `cpu2`, `mem2` with `effects` and `stuck` is
/// the run of sixteen instructions with random bytes `rnds`, followed by one
/// timer tick when no instruction stopped it.
pub open spec fn frame_of(
    c: CpuView,
    mem: Seq<u8>,
    keys: Seq<bool>,
    rnds: Seq<u8>,
    cpu2: CpuView,
    mem2: Seq<u8>,
    effects: Seq<Effect>,
    stuck: Option<u16>,
) -> bool {
    let r = run(c, mem, keys, rnds, CYCLES_PER_FRAME as nat);
    &&& rnds.len() == CYCLES_PER_FRAME
    &&& effects == r.effects
    &&& stuck == r.stuck
    &&& mem2 == r.mem
    &&& cpu2 == (if r.stuck is None { ticked(r.cpu) } else { r.cpu })
}

impl Chip8CPU {
    /// The program counter.
    pub fn pc(&self) -> (pc: u16)
        ensures
            pc == self@.pc,
    {
        self.pc
    }

    /// The frame buffer the processor draws on.
    pub fn display(&self) -> (d: &Chip8Display)
        ensures
            d@ == self@.screen,
    {
        &self.display
    }

    /// One 60 Hz frame: sixteen instructions, then one tick of the timers.
    /// An instruction that cannot run to its end stops the frame before it
    /// runs; it is reported in `stuck`, and the timers do not tick.
    pub fn run_frame(&mut self, ram: &mut Chip8Ram, keyboard: &mut Chip8Keyboard) -> (frame: Frame)
        ensures
            final(keyboard)@ == old(keyboard)@,
            exists|rnds: Seq<u8>|
                #[trigger] frame_of(
                    old(self)@,
                    old(ram)@,
                    old(keyboard)@,
                    rnds,
                    final(self)@,
                    final(ram)@,
                    frame.effects@,
                    frame.stuck,
                ),
    {
        let ghost c0 = self@;
        let ghost m0 = ram@;
        let ghost keys = keyboard@;
        let ghost mut rnds: Seq<u8> = Seq::new(16, |j: int| 0u8);
        let mut effects: Vec<Effect> = Vec::new();
        let mut k: usize = 0;
        while k < CYCLES_PER_FRAME
            invariant
                k <= CYCLES_PER_FRAME,
                rnds.len() == CYCLES_PER_FRAME,
                keyboard@ == keys,
                c0 == old(self)@,
                m0 == old(ram)@,
                keys == old(keyboard)@,
                run(c0, m0, keys, rnds, k as nat).stuck is None,
                run(c0, m0, keys, rnds, k as nat).cpu == self@,
                run(c0, m0, keys, rnds, k as nat).mem == ram@,
                run(c0, m0, keys, rnds, k as nat).effects == effects@,
            decreases CYCLES_PER_FRAME - k,
        {
            let opcode: u16 = self.fetch_opcode(ram);
            if !self.can_execute(opcode, keyboard) {
                proof {
                    lemma_run_stuck(c0, m0, keys, rnds, (k + 1) as nat, 16);
                }
                let frame = Frame { effects, stuck: Some(opcode) };
                assert(frame_of(old(self)@, old(ram)@, old(keyboard)@, rnds, self@, ram@, frame.effects@, frame.stuck));
                return frame;
            }
            let ghost cpu_before = self@;
            let ghost mem_before = ram@;
            let effect = self.cycle(ram, keyboard);
            proof {
                let r: u8 = if op_group(opcode) == 0xC {
                    choose|r: u8|
                        #[trigger] step(cpu_before, mem_before, keys, opcode, r) == (Step {
                            cpu: self@,
                            mem: ram@,
                            effect,
                        })
                } else {
                    0u8
                };
                let next = rnds.update(k as int, r);
                lemma_run_prefix(c0, m0, keys, rnds, next, k as nat);
                rnds = next;
            }
            effects.push(effect);
            k = k + 1;
        }
        self.update_timers();
        let frame = Frame { effects, stuck: None };
        assert(frame_of(old(self)@, old(ram)@, old(keyboard)@, rnds, self@, ram@, frame.effects@, frame.stuck));
        frame
    }
}

/// `8xy0`..`8xy3`: Vx receives Vy, Vx | Vy, Vx & Vy or Vx ^ Vy (bitwise, of
/// the old values); no other register changes, and execution moves on to
/// the next instruction.
pub proof fn lemma_alu_logic(c: CpuView, mem: Seq<u8>, keys: Seq<bool>, op: u16, r: u8)
    requires
        c.v.len() == 16,
        c.pc + 2 <= 0xFFFF,
        op_group(op) == 0x8,
        op_n(op) <= 3,
    ensures
        ({
            let s = step(c, mem, keys, op, r);
            let x = op_x(op);
            let y = op_y(op);
            &&& op_n(op) == 0 ==> s.cpu.v[x] == c.v[y]
            &&& op_n(op) == 1 ==> s.cpu.v[x] == c.v[x] | c.v[y]
            &&& op_n(op) == 2 ==> s.cpu.v[x] == c.v[x] & c.v[y]
            &&& op_n(op) == 3 ==> s.cpu.v[x] == c.v[x] ^ c.v[y]
            &&& forall|q: int| 0 <= q < 16 && q != x ==> s.cpu.v[q] == c.v[q]
            &&& s.cpu.v.len() == 16
            &&& s.cpu.pc == c.pc + 2
            &&& s.cpu.i == c.i
            &&& s.mem == mem
            &&& s.effect == Effect::Proceed
        }),
{
    reveal(step);
}

proof fn lemma_step_alu(c: CpuView, mem: Seq<u8>, keys: Seq<bool>, op: u16, r: u8)
    requires
        op_group(op) == 0x8,
    ensures
        step(c, mem, keys, op, r).cpu.v == alu_registers(c.v, op),
{
    reveal(step);
}

/// `8xy5` on registers other than VF: Vx - Vy modulo 256 lands in Vx, and
/// VF is 1 exactly when Vx was strictly larger than Vy, 0 otherwise.  No
/// other register changes.
pub proof fn lemma_alu_subtract(c: CpuView, mem: Seq<u8>, keys: Seq<bool>, op: u16, r: u8)
    requires
        c.v.len() == 16,
        op_group(op) == 0x8,
        op_n(op) == 5,
        op_x(op) != 15,
        op_y(op) != 15,
    ensures
        ({
            let s = step(c, mem, keys, op, r);
            let vx = c.v[op_x(op)];
            let vy = c.v[op_y(op)];
            let nx = s.cpu.v[op_x(op)];
            let f = s.cpu.v[15];
            &&& (nx + vy) % 256 == vx
            &&& f == 1 <==> vx > vy
            &&& f == 0 <==> vx <= vy
            &&& forall|q: int| 0 <= q < 15 && q != op_x(op) ==> s.cpu.v[q] == c.v[q]
        }),
{
    lemma_step_alu(c, mem, keys, op, r);
    let x = op_x(op);
    let y = op_y(op);
    let v = c.v;
    let v0 = v.update(15, 0u8);
    let v1 = v0.update(15, if v0[x] > v0[y] { 1u8 } else { 0u8 });
    assert(v1[x] == v[x] && v1[y] == v[y]);
    assert(alu_registers(v, op) == v1.update(x, ((v1[x] - v1[y]) % 256) as u8));
}

/// `8xy7` on registers other than VF: Vy - Vx modulo 256 lands in Vx, and
/// VF is 1 exactly when Vy was strictly larger than Vx, 0 otherwise.  No
/// other register changes.
pub proof fn lemma_alu_reverse_subtract(c: CpuView, mem: Seq<u8>, keys: Seq<bool>, op: u16, r: u8)
    requires
        c.v.len() == 16,
        op_group(op) == 0x8,
        op_n(op) == 7,
        op_x(op) != 15,
        op_y(op) != 15,
    ensures
        ({
            let s = step(c, mem, keys, op, r);
            let vx = c.v[op_x(op)];
            let vy = c.v[op_y(op)];
            let nx = s.cpu.v[op_x(op)];
            let f = s.cpu.v[15];
            &&& (nx + vx) % 256 == vy
            &&& f == 1 <==> vy > vx
            &&& f == 0 <==> vy <= vx
            &&& forall|q: int| 0 <= q < 15 && q != op_x(op) ==> s.cpu.v[q] == c.v[q]
        }),
{
    lemma_step_alu(c, mem, keys, op, r);
    let x = op_x(op);
    let y = op_y(op);
    let v = c.v;
    let v0 = v.update(15, 0u8);
    let v1 = v0.update(15, if v0[y] > v0[x] { 1u8 } else { 0u8 });
    assert(v1[x] == v[x] && v1[y] == v[y]);
    assert(alu_registers(v, op) == v1.update(x, ((v1[y] - v1[x]) % 256) as u8));
}

/// `8xy6` and `8xyE` on a register other than VF: a right shift halves Vx
/// and puts the bit shifted out in VF; a left shift doubles Vx modulo 256
/// and puts the top bit, as 0x80, in VF.  No other register changes.
pub proof fn lemma_alu_shift(c: CpuView, mem: Seq<u8>, keys: Seq<bool>, op: u16, r: u8)
    requires
        c.v.len() == 16,
        op_group(op) == 0x8,
        op_n(op) == 6 || op_n(op) == 0xE,
        op_x(op) != 15,
    ensures
        ({
            let s = step(c, mem, keys, op, r);
            let vx = c.v[op_x(op)];
            let nx = s.cpu.v[op_x(op)];
            let f = s.cpu.v[15];
            &&& op_n(op) == 6 ==> 2 * nx + f == vx && f <= 1
            &&& op_n(op) == 0xE ==> nx == (2 * vx) % 256 && 2 * f == (vx / 128) * 256
            &&& forall|q: int| 0 <= q < 15 && q != op_x(op) ==> s.cpu.v[q] == c.v[q]
        }),
{
    reveal(step);
    let x = op_x(op);
    let v = c.v;
    assert(step(c, mem, keys, op, r).cpu.v == alu_registers(v, op));
    if op_n(op) == 6 {
        let v1 = v.update(15, v[x] % 2);
        assert(v1[x] == v[x]);
        assert(alu_registers(v, op) == v1.update(x, v1[x] / 2));
    } else {
        let v1 = v.update(15, if v[x] >= 128 { 0x80u8 } else { 0u8 });
        assert(v1[x] == v[x]);
        assert(alu_registers(v, op) == v1.update(x, ((v1[x] * 2) % 256) as u8));
    }
}

/// The conditional skips: `3xkk` skips when Vx equals kk, `4xkk` when it
/// differs, `5xy0` when Vx equals Vy and `9xy0` when they differ; a skip
/// moves the program counter by four, otherwise it moves by two.  Nothing
/// else changes.
pub proof fn lemma_conditional_skips(c: CpuView, mem: Seq<u8>, keys: Seq<bool>, op: u16, r: u8)
    requires
        c.v.len() == 16,
        c.pc + 4 <= 0xFFFF,
        op_group(op) == 0x3 || op_group(op) == 0x4 || op_group(op) == 0x5 || op_group(op) == 0x9,
    ensures
        ({
            let s = step(c, mem, keys, op, r);
            let vx = c.v[op_x(op)];
            let vy = c.v[op_y(op)];
            let kk = op_kk(op);
            let taken = if op_group(op) == 0x3 {
                vx == kk
            } else if op_group(op) == 0x4 {
                vx != kk
            } else if op_group(op) == 0x5 {
                vx == vy
            } else {
                vx != vy
            };
            &&& s.cpu.pc == (if taken { c.pc + 4 } else { c.pc + 2 })
            &&& s.cpu == jump(c, s.cpu.pc as int)
            &&& s.mem == mem
        }),
{
    reveal(step);
}

/// `5xy0` and `9xy0` on the same registers: exactly one of them skips.
pub proof fn lemma_register_skips_exclusive(c: CpuView, mem: Seq<u8>, keys: Seq<bool>, eq: u16, ne: u16, r: u8)
    requires
        op_group(eq) == 0x5,
        op_group(ne) == 0x9,
        op_x(eq) == op_x(ne),
        op_y(eq) == op_y(ne),
        c.pc + 4 <= 0xFFFF,
    ensures
        step(c, mem, keys, eq, r).cpu.pc + step(c, mem, keys, ne, r).cpu.pc == 2 * c.pc + 6,
        step(c, mem, keys, eq, r).cpu.pc != step(c, mem, keys, ne, r).cpu.pc,
{
    reveal(step);
}

/// Jumps: `1nnn` goes to nnn, `Bnnn` to nnn + V0, `2nnn` to nnn pushing
/// the address of the next instruction; none of them changes a register.
pub proof fn lemma_jumps(c: CpuView, mem: Seq<u8>, keys: Seq<bool>, op: u16, r: u8)
    requires
        c.v.len() == 16,
        c.pc + 2 <= 0xFFFF,
        op_group(op) == 0x1 || op_group(op) == 0x2 || op_group(op) == 0xB,
    ensures
        ({
            let s = step(c, mem, keys, op, r);
            &&& op_group(op) == 0x1 ==> s.cpu.pc == op as int - 0x1000
            &&& op_group(op) == 0xB ==> s.cpu.pc == op as int - 0xB000 + c.v[0]
            &&& op_group(op) == 0x2 ==> s.cpu.pc == op as int - 0x2000 && s.cpu.stack == c.stack.push(
                (c.pc + 2) as u16,
            )
            &&& op_group(op) != 0x2 ==> s.cpu.stack == c.stack
            &&& s.cpu.v == c.v
            &&& s.cpu.i == c.i
            &&& s.mem == mem
        }),
{
    reveal(step);
}

/// Loads: `6xkk` sets Vx to kk, `7xkk` adds kk to Vx modulo 256 without
/// touching VF, `Annn` sets I to nnn.
pub proof fn lemma_loads(c: CpuView, mem: Seq<u8>, keys: Seq<bool>, op: u16, r: u8)
    requires
        c.v.len() == 16,
        c.pc + 2 <= 0xFFFF,
        op_group(op) == 0x6 || op_group(op) == 0x7 || op_group(op) == 0xA,
    ensures
        ({
            let s = step(c, mem, keys, op, r);
            let x = op_x(op);
            &&& op_group(op) == 0x6 ==> s.cpu.v[x] == op as int % 256
            &&& op_group(op) == 0x7 ==> (c.v[x] + op as int % 256 - s.cpu.v[x]) % 256 == 0
            &&& op_group(op) == 0xA ==> s.cpu.i == op as int - 0xA000
            &&& op_group(op) != 0xA ==> s.cpu.i == c.i
            &&& forall|q: int| 0 <= q < 16 && q != x ==> s.cpu.v[q] == c.v[q]
            &&& s.cpu.pc == c.pc + 2
        }),
{
    reveal(step);
}

/// The timer instructions: `Fx07` copies the delay timer into Vx, `Fx15`
/// sets the delay timer and `Fx18` the sound timer to Vx, each leaving the
/// other timer alone.
pub proof fn lemma_timer_instructions(c: CpuView, mem: Seq<u8>, keys: Seq<bool>, op: u16, r: u8)
    requires
        c.v.len() == 16,
        c.pc + 2 <= 0xFFFF,
        op_group(op) == 0xF,
        op_kk(op) == 0x07 || op_kk(op) == 0x15 || op_kk(op) == 0x18,
    ensures
        ({
            let s = step(c, mem, keys, op, r);
            let x = op_x(op);
            &&& op_kk(op) == 0x07 ==> s.cpu.v[x] == c.delay_timer && s.cpu.delay_timer
                == c.delay_timer && s.cpu.sound_timer == c.sound_timer
            &&& op_kk(op) == 0x15 ==> s.cpu.delay_timer == c.v[x] && s.cpu.sound_timer
                == c.sound_timer && s.cpu.v == c.v
            &&& op_kk(op) == 0x18 ==> s.cpu.sound_timer == c.v[x] && s.cpu.delay_timer
                == c.delay_timer && s.cpu.v == c.v
            &&& forall|q: int| 0 <= q < 16 && q != x ==> s.cpu.v[q] == c.v[q]
            &&& s.cpu.pc == c.pc + 2
            &&& s.mem == mem
        }),
{
    reveal(step);
}

/// Setting a timer and reading it back gives the value set: `Fx15` then
/// `Fy07` leaves Vy equal to the old Vx, as does `Fx18` for the sound timer
/// with the delay timer untouched.
pub proof fn lemma_set_then_read_delay(c: CpuView, mem: Seq<u8>, keys: Seq<bool>, set: u16, get: u16, r1: u8, r2: u8)
    requires
        c.v.len() == 16,
        c.pc + 4 <= 0xFFFF,
        op_group(set) == 0xF && op_kk(set) == 0x15,
        op_group(get) == 0xF && op_kk(get) == 0x07,
    ensures
        step(step(c, mem, keys, set, r1).cpu, mem, keys, get, r2).cpu.v[op_x(get)] == c.v[op_x(set)],
{
    reveal(step);
}

/// The index instructions: `Fx1E` adds Vx to I, `Fx29` points I at the
/// five-byte font glyph of the low nibble of Vx.
pub proof fn lemma_index_instructions(c: CpuView, mem: Seq<u8>, keys: Seq<bool>, op: u16, r: u8)
    requires
        c.v.len() == 16,
        c.pc + 2 <= 0xFFFF,
        c.i + 255 <= 0xFFFF,
        op_group(op) == 0xF,
        op_kk(op) == 0x1E || op_kk(op) == 0x29,
    ensures
        ({
            let s = step(c, mem, keys, op, r);
            let vx = c.v[op_x(op)];
            &&& op_kk(op) == 0x1E ==> s.cpu.i == c.i + vx
            &&& op_kk(op) == 0x29 ==> s.cpu.i == 5 * (vx % 16) && s.cpu.i < 80
            &&& s.cpu.v == c.v
            &&& s.mem == mem
        }),
{
    reveal(step);
}

/// A frame that no instruction stopped ends with both timers one tick
/// lower than the sixteen instructions left them (a timer at zero stays at
/// zero), every other register as those instructions left it.
pub proof fn lemma_frame_ticks_timers(
    c: CpuView,
    mem: Seq<u8>,
    keys: Seq<bool>,
    rnds: Seq<u8>,
    cpu2: CpuView,
    mem2: Seq<u8>,
    effects: Seq<Effect>,
)
    requires
        frame_of(c, mem, keys, rnds, cpu2, mem2, effects, None),
    ensures
        ({
            let r = run(c, mem, keys, rnds, 16);
            &&& r.stuck is None
            &&& cpu2.delay_timer == (if r.cpu.delay_timer > 0 { r.cpu.delay_timer - 1 } else { 0 })
            &&& cpu2.sound_timer == (if r.cpu.sound_timer > 0 { r.cpu.sound_timer - 1 } else { 0 })
            &&& cpu2.pc == r.cpu.pc
            &&& cpu2.i == r.cpu.i
            &&& cpu2.v == r.cpu.v
            &&& cpu2.stack == r.cpu.stack
            &&& cpu2.screen == r.cpu.screen
            &&& mem2 == r.mem
        }),
{
}

/// A frame stopped by an instruction leaves the timers as the instructions
/// before it left them, and reports the opcode that could not run.
pub proof fn lemma_frame_stuck(
    c: CpuView,
    mem: Seq<u8>,
    keys: Seq<bool>,
    rnds: Seq<u8>,
    cpu2: CpuView,
    mem2: Seq<u8>,
    effects: Seq<Effect>,
    op: u16,
)
    requires
        frame_of(c, mem, keys, rnds, cpu2, mem2, effects, Some(op)),
    ensures
        op == fetch(mem2, cpu2.pc),
        !executable(cpu2, keys, op),
        effects.len() < 16,
{
    lemma_frame_stuck_run(c, mem, keys, rnds, 16);
}

proof fn lemma_frame_stuck_run(c: CpuView, mem: Seq<u8>, keys: Seq<bool>, rnds: Seq<u8>, n: nat)
    ensures
        run(c, mem, keys, rnds, n).effects.len() <= n,
        run(c, mem, keys, rnds, n).stuck matches Some(op) ==> op == fetch(
            run(c, mem, keys, rnds, n).mem,
            run(c, mem, keys, rnds, n).cpu.pc,
        ) && !executable(run(c, mem, keys, rnds, n).cpu, keys, op)
            && run(c, mem, keys, rnds, n).effects.len() < n,
    decreases n,
{
    if n > 0 {
        lemma_frame_stuck_run(c, mem, keys, rnds, (n - 1) as nat);
    }
}

/// `Ex9E` skips exactly when the key numbered Vx is held, `ExA1` exactly
/// when it is not; nothing else changes.
pub proof fn lemma_key_skips(c: CpuView, mem: Seq<u8>, keys: Seq<bool>, op: u16, r: u8)
    requires
        c.v.len() == 16,
        c.pc + 4 <= 0xFFFF,
        op_group(op) == 0xE,
        op_kk(op) == 0x9E || op_kk(op) == 0xA1,
    ensures
        ({
            let s = step(c, mem, keys, op, r);
            let held = keys[c.v[op_x(op)] as int];
            &&& op_kk(op) == 0x9E ==> s.cpu.pc == (if held { c.pc + 4 } else { c.pc + 2 })
            &&& op_kk(op) == 0xA1 ==> s.cpu.pc == (if held { c.pc + 2 } else { c.pc + 4 })
            &&& s.cpu == jump(c, s.cpu.pc as int)
            &&& s.mem == mem
            &&& s.effect == Effect::Proceed
        }),
{
    reveal(step);
}

/// `Fx0A` with a key held puts the lowest-numbered held key in Vx and moves
/// on; no other register changes.
pub proof fn lemma_key_wait_returns_lowest(c: CpuView, mem: Seq<u8>, keys: Seq<bool>, op: u16, r: u8, k: int)
    requires
        c.v.len() == 16,
        c.pc + 2 <= 0xFFFF,
        op_group(op) == 0xF && op_kk(op) == 0x0A,
        0 <= k < 16,
        keys[k],
        forall|j: int| 0 <= j < k ==> !keys[j],
    ensures
        ({
            let s = step(c, mem, keys, op, r);
            &&& s.cpu.v[op_x(op)] == k
            &&& forall|q: int| 0 <= q < 16 && q != op_x(op) ==> s.cpu.v[q] == c.v[q]
            &&& s.cpu.pc == c.pc + 2
        }),
{
    reveal(step);
    assert(exists|j: int| 0 <= j < 16 && keys[j]);
    let kk = choose|j: int| 0 <= j < 16 && keys[j] && forall|i: int| 0 <= i < j ==> !keys[i];
    assert(0 <= kk < 16 && keys[kk] && forall|i: int| 0 <= i < kk ==> !keys[i]);
    if kk < k {
        assert(!keys[kk]);
    } else if kk > k {
        assert(!keys[k]);
    }
}

/// `Fx55` writes V0..=Vx to the bytes at I, I+1, ... (wrapping), and leaves
/// every other byte of memory alone.
pub proof fn lemma_store_registers(c: CpuView, mem: Seq<u8>, keys: Seq<bool>, op: u16, r: u8, a: int)
    requires
        c.v.len() == 16,
        mem.len() == 4096,
        op_group(op) == 0xF && op_kk(op) == 0x55,
        0 <= a < 4096,
    ensures
        ({
            let m = step(c, mem, keys, op, r).mem;
            &&& m.len() == 4096
            &&& forall|q: int| 0 <= q <= op_x(op) ==> #[trigger] mem_read(m, c.i + q) == c.v[q]
            &&& (forall|q: int| 0 <= q <= op_x(op) ==> a != #[trigger] ((c.i + q) % 4096)) ==> m[a]
                == mem[a]
        }),
{
    reveal(step);
    let x = op_x(op);
    let m = step(c, mem, keys, op, r).mem;
    assert forall|q: int| 0 <= q <= x implies #[trigger] mem_read(m, c.i + q) == c.v[q] by {
        lemma_wrap_mem(c.i as int, q, (c.i + q) % 4096);
    }
    if forall|q: int| 0 <= q <= x ==> a != #[trigger] ((c.i + q) % 4096) {
        let off = (a - c.i) % 4096;
        lemma_wrap_mem(c.i as int, off, a);
        if off <= x {
            assert(a == (c.i + off) % 4096);
        }
    }
}

/// `Fx65` loads V0..=Vx from the bytes at I, I+1, ... (wrapping); the
/// registers above Vx and the memory are left alone.
pub proof fn lemma_load_registers(c: CpuView, mem: Seq<u8>, keys: Seq<bool>, op: u16, r: u8)
    requires
        c.v.len() == 16,
        op_group(op) == 0xF && op_kk(op) == 0x65,
    ensures
        ({
            let s = step(c, mem, keys, op, r);
            &&& forall|q: int| 0 <= q <= op_x(op) ==> s.cpu.v[q] == mem[(c.i + q) % 4096]
            &&& forall|q: int| op_x(op) < q < 16 ==> s.cpu.v[q] == c.v[q]
            &&& s.mem == mem
        }),
{
    reveal(step);
}

/// The opcode fetched at `pc` has the byte at `pc` as its high byte and the
/// byte after it as its low byte.
pub proof fn lemma_fetch_bytes(mem: Seq<u8>, pc: u16)
    requires
        mem.len() == 4096,
        pc < 4095,
    ensures
        fetch(mem, pc) / 256 == mem[pc as int],
        fetch(mem, pc) % 256 == mem[pc + 1],
{
}

/// `00E0` asks for the canvas to be cleared and otherwise just moves on;
/// the opcodes outside the instruction set are reported as unknown, and
/// exactly those.
pub proof fn lemma_known_opcodes(c: CpuView, mem: Seq<u8>, keys: Seq<bool>, op: u16, r: u8)
    ensures
        (op_group(op) == 0 && op_kk(op) == 0xE0) ==> step(c, mem, keys, op, r).effect
            == Effect::ClearScreen,
        (step(c, mem, keys, op, r).effect == Effect::UnknownOpcode(op)) <==> ({
            let g = op_group(op);
            let kk = op_kk(op);
            let n = op_n(op);
            ||| g == 0x0 && kk != 0xE0 && kk != 0xEE
            ||| g == 0x8 && n != 0 && n != 1 && n != 2 && n != 3 && n != 4 && n != 5 && n != 6
                && n != 7 && n != 0xE
            ||| g == 0xE && kk != 0x9E && kk != 0xA1
            ||| g == 0xF && kk != 0x07 && kk != 0x0A && kk != 0x15 && kk != 0x18 && kk != 0x1E
                && kk != 0x29 && kk != 0x33 && kk != 0x55 && kk != 0x65
        }),
{
    reveal(step);
}

/// The conditions under which an instruction cannot run are exactly the
/// overflow, empty-stack and key-index cases: the program counter at the
/// top of the address space stops everything, and a state with room for
/// the program counter and I, a non-empty stack and registers that name
/// keys runs every instruction.
pub proof fn lemma_executable_cases(c: CpuView, keys: Seq<bool>, op: u16)
    requires
        c.v.len() == 16,
    ensures
        c.pc + 2 > 0xFFFF ==> !executable(c, keys, op),
        (c.pc + 4 <= 0xFFFF && c.stack.len() > 0 && c.i + 255 <= 0xFFFF && forall|q: int|
            0 <= q < 16 ==> c.v[q] < 16) ==> executable(c, keys, op),
{
}

} // verus!
