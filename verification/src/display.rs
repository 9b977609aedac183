use vstd::prelude::*;
use crate::ram::{Chip8Ram, mem_read};

verus! {

/// Width of the screen in pixels.
pub const SCREEN_WIDTH: usize = 64;

/// Height of the screen in pixels.
pub const SCREEN_HEIGHT: usize = 32;

/// The screen as rows of pixels: `grid(p)[y][x]` is the pixel at column `x`
/// of row `y`.
pub open spec fn grid(pixels: [[bool; 64]; 32]) -> Seq<Seq<bool>> {
    Seq::new(32, |y: int| pixels@[y]@)
}

/// A screen of the right shape: 32 rows of 64 pixels.
pub open spec fn is_screen(g: Seq<Seq<bool>>) -> bool {
    &&& g.len() == 32
    &&& forall|y: int| 0 <= y < 32 ==> (#[trigger] g[y]).len() == 64
}

/// The screen with the pixel at (`x`, `y`) inverted.
pub open spec fn flip_pixel(g: Seq<Seq<bool>>, x: int, y: int) -> Seq<Seq<bool>> {
    g.update(y, g[y].update(x, !g[y][x]))
}


/// Whether column `col` (0 = leftmost) of a sprite row `byte` is set.
pub open spec fn sprite_bit(byte: u8, col: int) -> bool {
    byte & (0x80u8 >> (col as u8)) != 0
}

/// Whether the sprite of `height` rows read from memory at `base`, drawn
/// with its top-left corner at (`vx`, `vy`) and wrapping around the screen
/// edges, has a set bit over screen pixel (`x`, `y`).
pub open spec fn sprite_covers(
    mem: Seq<u8>,
    base: int,
    vx: u8,
    vy: u8,
    height: int,
    x: int,
    y: int,
) -> bool {
    let dx = (x - vx) % 64;
    let dy = (y - vy) % 32;
    dx < 8 && dy < height && sprite_bit(mem_read(mem, base + dy), dx)
}

/// The screen after XOR-ing the sprite onto it.
pub open spec fn drawn(
    g: Seq<Seq<bool>>,
    mem: Seq<u8>,
    base: int,
    vx: u8,
    vy: u8,
    height: int,
) -> Seq<Seq<bool>> {
    Seq::new(
        32,
        |y: int| Seq::new(64, |x: int| g[y][x] != sprite_covers(mem, base, vx, vy, height, x, y)),
    )
}

/// Whether drawing the sprite turns off at least one lit pixel.
pub open spec fn collides(
    g: Seq<Seq<bool>>,
    mem: Seq<u8>,
    base: int,
    vx: u8,
    vy: u8,
    height: int,
) -> bool {
    exists|x: int, y: int|
        0 <= x < 64 && 0 <= y < 32 && #[trigger] sprite_covers(mem, base, vx, vy, height, x, y)
            && g[y][x]
}

/// The part of the sprite drawn by the time row `row`, column `col` is next.
spec fn covered_before(
    mem: Seq<u8>,
    base: int,
    vx: u8,
    vy: u8,
    height: int,
    x: int,
    y: int,
    row: int,
    col: int,
) -> bool {
    let dx = (x - vx) % 64;
    let dy = (y - vy) % 32;
    sprite_covers(mem, base, vx, vy, height, x, y) && (dy < row || (dy == row && dx < col))
}

spec fn drawn_before(
    g: Seq<Seq<bool>>,
    mem: Seq<u8>,
    base: int,
    vx: u8,
    vy: u8,
    height: int,
    row: int,
    col: int,
) -> Seq<Seq<bool>> {
    Seq::new(
        32,
        |y: int|
            Seq::new(
                64,
                |x: int| g[y][x] != covered_before(mem, base, vx, vy, height, x, y, row, col),
            ),
    )
}

spec fn collides_before(
    g: Seq<Seq<bool>>,
    mem: Seq<u8>,
    base: int,
    vx: u8,
    vy: u8,
    height: int,
    row: int,
    col: int,
) -> bool {
    exists|x: int, y: int|
        0 <= x < 64 && 0 <= y < 32 && #[trigger] covered_before(
            mem,
            base,
            vx,
            vy,
            height,
            x,
            y,
            row,
            col,
        ) && g[y][x]
}

/// On a screen of width `m`, the pixel `off` places right of `start` (with
/// wrap-around) is `(start + off) % m`, and it is the only one at that
/// distance.
proof fn lemma_wrap(start: int, off: int, a: int, m: int)
    requires
        m == 64 || m == 32,
        0 <= start < 256,
        0 <= off < m,
        0 <= a < m,
    ensures
        ((start + off) % m - start) % m == off,
        (a - start) % m == off <==> a == (start + off) % m,
{
}

/// The frame buffer of the machine: 64 x 32 monochrome pixels.
pub struct Chip8Display {
    pub pixels: [[bool; 64]; 32],
}

impl View for Chip8Display {
    type V = Seq<Seq<bool>>;

    open spec fn view(&self) -> Seq<Seq<bool>> {
        grid(self.pixels)
    }
}

impl Chip8Display {
    /// Every display has 32 rows of 64 pixels.
    pub proof fn lemma_shape(&self)
        ensures
            is_screen(self@),
    {
    }

    /// A blank screen.
    pub fn new() -> (d: Self)
        ensures
            d@ == Seq::new(32, |y: int| Seq::new(64, |x: int| false)),
    {
        let d = Self { pixels: [[false; 64]; 32] };
        assert(d@ =~= Seq::new(32, |y: int| Seq::new(64, |x: int| false))) by {
            assert forall|y: int| 0 <= y < 32 implies d@[y] =~= Seq::new(64, |x: int| false) by {}
        }
        d
    }

    /// Inverts the pixel at (`x`, `y`) and reports whether it was lit; a
    /// position off the screen changes nothing and reports `false`.
    pub fn xor_pixel(&mut self, x: usize, y: usize) -> (was_on: bool)
        ensures
            x < 64 && y < 32 ==> was_on == old(self)@[y as int][x as int] && final(self)@
                == flip_pixel(old(self)@, x as int, y as int),
            !(x < 64 && y < 32) ==> !was_on && final(self)@ == old(self)@,
    {
        if x >= 64 || y >= 32 {
            return false;
        }
        let was_on: bool = self.pixels[y][x];
        let ghost before = self@;
        self.pixels[y][x] = !was_on;
        assert(self@ =~= flip_pixel(before, x as int, y as int)) by {
            assert(self@[y as int] =~= before[y as int].update(x as int, !was_on));
        }
        was_on
    }

    /// XORs the sprite of `height` rows stored at `base` onto the screen
    /// with its top-left corner at (`vx`, `vy`), wrapping at the edges, and
    /// reports whether a lit pixel was turned off.
    pub(crate) fn draw(&mut self, ram: &Chip8Ram, base: usize, vx: u8, vy: u8, height: u8) -> (collision: bool)
        requires
            base < 0x10000,
            height < 16,
        ensures
            final(self)@ == drawn(old(self)@, ram@, base as int, vx, vy, height as int),
            collision == collides(old(self)@, ram@, base as int, vx, vy, height as int),
    {
        let ghost g = self@;
        let ghost mem = ram@;
        let ghost b = base as int;
        let ghost h = height as int;
        let start_x: usize = vx as usize;
        let start_y: usize = vy as usize;
        let mut collision = false;
        let mut row: usize = 0;
        assert(self@ =~= drawn_before(g, mem, b, vx, vy, h, 0, 0)) by {
            assert forall|y: int| 0 <= y < 32 implies self@[y] =~= drawn_before(g, mem, b, vx, vy, h, 0, 0)[y] by {}
        }
        while row < height as usize
            invariant
                row <= height,
                height < 16,
                base < 0x10000,
                start_x == vx,
                start_y == vy,
                g == old(self)@,
                mem == ram@,
                b == base,
                h == height,
                is_screen(g),
                self@ == drawn_before(g, mem, b, vx, vy, h, row as int, 0),
                collision == collides_before(g, mem, b, vx, vy, h, row as int, 0),
            decreases height - row,
        {
            let sprite_byte: u8 = ram.read(base + row);
            let mut col: u8 = 0;
            while col < 8
                invariant
                    row < height,
                    height < 16,
                    col <= 8,
                    base < 0x10000,
                    start_x == vx,
                    start_y == vy,
                    mem == ram@,
                    b == base,
                    h == height,
                    is_screen(g),
                    sprite_byte == mem_read(mem, b + row),
                    self@ == drawn_before(g, mem, b, vx, vy, h, row as int, col as int),
                    collision == collides_before(g, mem, b, vx, vy, h, row as int, col as int),
                decreases 8 - col,
            {
                let ghost before = self@;
                let ghost was_collision = collision;
                let px: usize = (start_x + col as usize) % 64;
                let py: usize = (start_y + row) % 32;
                proof {
                    lemma_wrap(vx as int, col as int, 0, 64);
                    lemma_wrap(vy as int, row as int, 0, 32);
                }
                let bit = sprite_byte & (0x80u8 >> col) != 0;
                if bit {
                    let was_on = self.xor_pixel(px, py);
                    if was_on {
                        collision = true;
                    }
                    assert(was_on == g[py as int][px as int]);
                } 
                assert forall|x: int, y: int| 0 <= x < 64 && 0 <= y < 32 implies
                    #[trigger] covered_before(mem, b, vx, vy, h, x, y, row as int, col + 1)
                    == (covered_before(mem, b, vx, vy, h, x, y, row as int, col as int)
                        || (bit && x == px && y == py)) by {
                    lemma_wrap(vx as int, col as int, x, 64);
                    lemma_wrap(vy as int, row as int, y, 32);
                }
                assert(self@ =~= drawn_before(g, mem, b, vx, vy, h, row as int, col + 1)) by {
                    assert forall|y: int| 0 <= y < 32 implies self@[y] =~= drawn_before(g, mem, b, vx, vy, h, row as int, col + 1)[y] by {
                        assert forall|x: int| 0 <= x < 64 implies self@[y][x] == drawn_before(g, mem, b, vx, vy, h, row as int, col + 1)[y][x] by {
                            assert(covered_before(mem, b, vx, vy, h, x, y, row as int, col + 1)
                                == (covered_before(mem, b, vx, vy, h, x, y, row as int, col as int)
                                || (bit && x == px && y == py)));
                        }
                    }
                }
                assert(collision == collides_before(g, mem, b, vx, vy, h, row as int, col + 1)) by {
                    if was_collision {
                        let (x, y) = choose|x: int, y: int| 0 <= x < 64 && 0 <= y < 32 && #[trigger] covered_before(mem, b, vx, vy, h, x, y, row as int, col as int) && g[y][x];
                        assert(covered_before(mem, b, vx, vy, h, x, y, row as int, col + 1));
                    }
                    if collision && !was_collision {
                        assert(covered_before(mem, b, vx, vy, h, px as int, py as int, row as int, col + 1));
                    }
                    if collides_before(g, mem, b, vx, vy, h, row as int, col + 1) {
                        let (x, y) = choose|x: int, y: int| 0 <= x < 64 && 0 <= y < 32 && #[trigger] covered_before(mem, b, vx, vy, h, x, y, row as int, col + 1) && g[y][x];
                        if !(bit && x == px && y == py) {
                            assert(covered_before(mem, b, vx, vy, h, x, y, row as int, col as int));
                        }
                    }
                }
                col = col + 1;
            }
            assert forall|x: int, y: int| #[trigger] covered_before(mem, b, vx, vy, h, x, y, row as int, 8)
                == covered_before(mem, b, vx, vy, h, x, y, row + 1, 0) by {}
            assert(self@ =~= drawn_before(g, mem, b, vx, vy, h, row + 1, 0)) by {
                assert forall|y: int| 0 <= y < 32 implies self@[y] =~= drawn_before(g, mem, b, vx, vy, h, row + 1, 0)[y] by {
                    assert forall|x: int| 0 <= x < 64 implies self@[y][x] == drawn_before(g, mem, b, vx, vy, h, row + 1, 0)[y][x] by {
                        assert(covered_before(mem, b, vx, vy, h, x, y, row as int, 8)
                            == covered_before(mem, b, vx, vy, h, x, y, row + 1, 0));
                    }
                }
            }
            assert(collision == collides_before(g, mem, b, vx, vy, h, row + 1, 0)) by {
                if collision {
                    let (x, y) = choose|x: int, y: int| 0 <= x < 64 && 0 <= y < 32 && #[trigger] covered_before(mem, b, vx, vy, h, x, y, row as int, 8) && g[y][x];
                    assert(covered_before(mem, b, vx, vy, h, x, y, row + 1, 0));
                }
                if collides_before(g, mem, b, vx, vy, h, row + 1, 0) {
                    let (x, y) = choose|x: int, y: int| 0 <= x < 64 && 0 <= y < 32 && #[trigger] covered_before(mem, b, vx, vy, h, x, y, row + 1, 0) && g[y][x];
                    assert(covered_before(mem, b, vx, vy, h, x, y, row as int, 8));
                }
            }
            row = row + 1;
        }
        assert forall|x: int, y: int| #[trigger] covered_before(mem, b, vx, vy, h, x, y, h, 0)
            == sprite_covers(mem, b, vx, vy, h, x, y) by {}
        assert(self@ =~= drawn(g, mem, b, vx, vy, h)) by {
            assert forall|y: int| 0 <= y < 32 implies self@[y] =~= drawn(g, mem, b, vx, vy, h)[y] by {
                assert forall|x: int| 0 <= x < 64 implies self@[y][x] == drawn(g, mem, b, vx, vy, h)[y][x] by {
                    assert(covered_before(mem, b, vx, vy, h, x, y, h, 0) == sprite_covers(mem, b, vx, vy, h, x, y));
                }
            }
        }
        assert(collision == collides(g, mem, b, vx, vy, h)) by {
            if collision {
                let (x, y) = choose|x: int, y: int| 0 <= x < 64 && 0 <= y < 32 && #[trigger] covered_before(mem, b, vx, vy, h, x, y, h, 0) && g[y][x];
                assert(sprite_covers(mem, b, vx, vy, h, x, y));
            }
            if collides(g, mem, b, vx, vy, h) {
                let (x, y) = choose|x: int, y: int| 0 <= x < 64 && 0 <= y < 32 && #[trigger] sprite_covers(mem, b, vx, vy, h, x, y) && g[y][x];
                assert(covered_before(mem, b, vx, vy, h, x, y, h, 0));
            }
        }
        collision
    }
}

/// Inverting a pixel twice restores the screen.
pub proof fn lemma_flip_twice(g: Seq<Seq<bool>>, x: int, y: int)
    requires
        is_screen(g),
        0 <= x < 64,
        0 <= y < 32,
    ensures
        flip_pixel(flip_pixel(g, x, y), x, y) == g,
{
    assert(flip_pixel(flip_pixel(g, x, y), x, y)[y] =~= g[y]);
    assert(flip_pixel(flip_pixel(g, x, y), x, y) =~= g);
}

/// Whether a set bit of the sprite falls on a pixel that is dark in `g`.
pub open spec fn lands_on_dark(
    g: Seq<Seq<bool>>,
    mem: Seq<u8>,
    base: int,
    vx: u8,
    vy: u8,
    height: int,
) -> bool {
    exists|x: int, y: int|
        0 <= x < 64 && 0 <= y < 32 && #[trigger] sprite_covers(mem, base, vx, vy, height, x, y)
            && !g[y][x]
}

/// Drawing the same sprite twice at the same place restores the screen:
/// sprites are erased by drawing them again.  The second drawing collides
/// exactly when a set bit of the sprite falls on a pixel that was dark
/// before the first drawing.
pub proof fn lemma_draw_twice(g: Seq<Seq<bool>>, mem: Seq<u8>, base: int, vx: u8, vy: u8, height: int)
    requires
        is_screen(g),
    ensures
        drawn(drawn(g, mem, base, vx, vy, height), mem, base, vx, vy, height) == g,
        collides(drawn(g, mem, base, vx, vy, height), mem, base, vx, vy, height) == lands_on_dark(
            g,
            mem,
            base,
            vx,
            vy,
            height,
        ),
{
    let d1 = drawn(g, mem, base, vx, vy, height);
    let d2 = drawn(d1, mem, base, vx, vy, height);
    assert forall|y: int| 0 <= y < 32 implies d2[y] =~= g[y] by {}
    assert(d2 =~= g);
    if collides(d1, mem, base, vx, vy, height) {
        let (x, y) = choose|x: int, y: int|
            0 <= x < 64 && 0 <= y < 32 && #[trigger] sprite_covers(mem, base, vx, vy, height, x, y)
                && d1[y][x];
        assert(!g[y][x]);
    }
    if lands_on_dark(g, mem, base, vx, vy, height) {
        let (x, y) = choose|x: int, y: int|
            0 <= x < 64 && 0 <= y < 32 && #[trigger] sprite_covers(mem, base, vx, vy, height, x, y)
                && !g[y][x];
        assert(d1[y][x]);
    }
}

/// On a blank screen a sprite collides with nothing, and the lit pixels
/// are exactly the set bits of the sprite.
pub proof fn lemma_draw_on_blank(g: Seq<Seq<bool>>, mem: Seq<u8>, base: int, vx: u8, vy: u8, height: int)
    requires
        is_screen(g),
        forall|x: int, y: int| 0 <= x < 64 && 0 <= y < 32 ==> !g[y][x],
    ensures
        !collides(g, mem, base, vx, vy, height),
        forall|x: int, y: int|
            0 <= x < 64 && 0 <= y < 32 ==> drawn(g, mem, base, vx, vy, height)[y][x]
                == sprite_covers(mem, base, vx, vy, height, x, y),
{
}

/// Drawing at (`vx`, `vy`) lights, on a blank screen, the pixel
/// (`vx + col`, `vy + row`) (wrapped) exactly when bit `col` of sprite row
/// `row` is set.
pub proof fn lemma_sprite_position(mem: Seq<u8>, base: int, vx: u8, vy: u8, height: int, row: int, col: int)
    requires
        0 <= col < 8,
        0 <= row < height,
        height < 32,
    ensures
        sprite_covers(mem, base, vx, vy, height, (vx + col) % 64, (vy + row) % 32)
            == sprite_bit(mem_read(mem, base + row), col),
{
    lemma_wrap(vx as int, col, 0, 64);
    lemma_wrap(vy as int, row, 0, 32);
}

/// Whether the sprite puts its bit `col` of row `row` (bit 7 - `col` of the
/// byte, counting from the least significant) on pixel (`x`, `y`): the
/// pixel is `col` columns right of Vx and `row` rows below Vy, wrapping
/// around the 64 x 32 screen.
pub open spec fn lights(mem: Seq<u8>, base: int, vx: u8, vy: u8, row: int, col: int, x: int, y: int) -> bool {
    &&& x == (vx + col) % 64
    &&& y == (vy + row) % 32
    &&& (mem_read(mem, base + row) >> ((7 - col) as u8)) & 1u8 == 1u8
}

/// Drawing inverts exactly the pixels on which a set bit of one of the
/// first `height` sprite rows lands, and collides exactly when one of those
/// pixels was lit.
pub proof fn lemma_draw_pixels(g: Seq<Seq<bool>>, mem: Seq<u8>, base: int, vx: u8, vy: u8, height: int, x: int, y: int)
    requires
        is_screen(g),
        0 <= height < 16,
        0 <= x < 64,
        0 <= y < 32,
    ensures
        drawn(g, mem, base, vx, vy, height)[y][x] == (g[y][x] != exists|row: int, col: int|
            0 <= row < height && 0 <= col < 8 && #[trigger] lights(mem, base, vx, vy, row, col, x, y)),
        collides(g, mem, base, vx, vy, height) == exists|row: int, col: int, px: int, py: int|
            0 <= row < height && 0 <= col < 8 && 0 <= px < 64 && 0 <= py < 32
                && #[trigger] lights(mem, base, vx, vy, row, col, px, py) && g[py][px],
{
    assert forall|px: int, py: int| 0 <= px < 64 && 0 <= py < 32 implies
        #[trigger] sprite_covers(mem, base, vx, vy, height, px, py) == exists|row: int, col: int|
            0 <= row < height && 0 <= col < 8 && #[trigger] lights(mem, base, vx, vy, row, col, px, py) by {
        let dx = (px - vx) % 64;
        let dy = (py - vy) % 32;
        lemma_wrap(vx as int, dx, px, 64);
        lemma_wrap(vy as int, dy, py, 32);
        let byte = mem_read(mem, base + dy);
        if sprite_covers(mem, base, vx, vy, height, px, py) {
            let c8 = dx as u8;
            assert(c8 < 8 ==> ((byte & (0x80u8 >> c8) != 0) == ((byte >> (7 - c8) as u8) & 1u8 == 1u8))) by (bit_vector);
            assert(lights(mem, base, vx, vy, dy, dx, px, py));
        }
        if exists|row: int, col: int|
            0 <= row < height && 0 <= col < 8 && #[trigger] lights(mem, base, vx, vy, row, col, px, py) {
            let (row, col) = choose|row: int, col: int|
                0 <= row < height && 0 <= col < 8 && #[trigger] lights(mem, base, vx, vy, row, col, px, py);
            lemma_wrap(vx as int, col, px, 64);
            lemma_wrap(vy as int, row, py, 32);
            let c8 = col as u8;
            let b2 = mem_read(mem, base + row);
            assert(c8 < 8 ==> ((b2 & (0x80u8 >> c8) != 0) == ((b2 >> (7 - c8) as u8) & 1u8 == 1u8))) by (bit_vector);
        }
    }
    assert(drawn(g, mem, base, vx, vy, height)[y][x] == (g[y][x] != sprite_covers(mem, base, vx, vy, height, x, y)));
    if collides(g, mem, base, vx, vy, height) {
        let (px, py) = choose|px: int, py: int|
            0 <= px < 64 && 0 <= py < 32 && #[trigger] sprite_covers(mem, base, vx, vy, height, px, py) && g[py][px];
        let (row, col) = choose|row: int, col: int|
            0 <= row < height && 0 <= col < 8 && #[trigger] lights(mem, base, vx, vy, row, col, px, py);
        assert(lights(mem, base, vx, vy, row, col, px, py) && g[py][px]);
    }
    if exists|row: int, col: int, px: int, py: int|
        0 <= row < height && 0 <= col < 8 && 0 <= px < 64 && 0 <= py < 32
            && #[trigger] lights(mem, base, vx, vy, row, col, px, py) && g[py][px] {
        let (row, col, px, py) = choose|row: int, col: int, px: int, py: int|
            0 <= row < height && 0 <= col < 8 && 0 <= px < 64 && 0 <= py < 32
                && #[trigger] lights(mem, base, vx, vy, row, col, px, py) && g[py][px];
        assert(sprite_covers(mem, base, vx, vy, height, px, py));
    }
}

} // verus!
