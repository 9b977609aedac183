use vstd::prelude::*;

verus! {

/// SDL key codes of the host keys that make up the keypad (SDL uses the
/// ASCII code of the character printed on the key).
pub const KEYCODE_1: i32 = 49;
pub const KEYCODE_2: i32 = 50;
pub const KEYCODE_3: i32 = 51;
pub const KEYCODE_4: i32 = 52;
pub const KEYCODE_Q: i32 = 113;
pub const KEYCODE_W: i32 = 119;
pub const KEYCODE_E: i32 = 101;
pub const KEYCODE_R: i32 = 114;
pub const KEYCODE_A: i32 = 97;
pub const KEYCODE_S: i32 = 115;
pub const KEYCODE_D: i32 = 100;
pub const KEYCODE_F: i32 = 102;
pub const KEYCODE_Z: i32 = 122;
pub const KEYCODE_X: i32 = 120;
pub const KEYCODE_C: i32 = 99;
pub const KEYCODE_V: i32 = 118;

/// The keypad layout: host keys 1234/QWER/ASDF/ZXCV stand for the
/// hexadecimal keypad 123C/456D/789E/A0BF.
pub open spec fn key_layout(keycode: i32) -> Option<u8> {
    if keycode == KEYCODE_1 {
        Some(0x1u8)
    } else if keycode == KEYCODE_2 {
        Some(0x2u8)
    } else if keycode == KEYCODE_3 {
        Some(0x3u8)
    } else if keycode == KEYCODE_4 {
        Some(0xCu8)
    } else if keycode == KEYCODE_Q {
        Some(0x4u8)
    } else if keycode == KEYCODE_W {
        Some(0x5u8)
    } else if keycode == KEYCODE_E {
        Some(0x6u8)
    } else if keycode == KEYCODE_R {
        Some(0xDu8)
    } else if keycode == KEYCODE_A {
        Some(0x7u8)
    } else if keycode == KEYCODE_S {
        Some(0x8u8)
    } else if keycode == KEYCODE_D {
        Some(0x9u8)
    } else if keycode == KEYCODE_F {
        Some(0xEu8)
    } else if keycode == KEYCODE_Z {
        Some(0xAu8)
    } else if keycode == KEYCODE_X {
        Some(0x0u8)
    } else if keycode == KEYCODE_C {
        Some(0xBu8)
    } else if keycode == KEYCODE_V {
        Some(0xFu8)
    } else {
        None
    }
}

/// The host keycode that stands for keypad key `key` (for `key < 16`).
pub open spec fn layout_keycode(key: u8) -> i32 {
    if key == 0x0 {
        KEYCODE_X
    } else if key == 0x1 {
        KEYCODE_1
    } else if key == 0x2 {
        KEYCODE_2
    } else if key == 0x3 {
        KEYCODE_3
    } else if key == 0x4 {
        KEYCODE_Q
    } else if key == 0x5 {
        KEYCODE_W
    } else if key == 0x6 {
        KEYCODE_E
    } else if key == 0x7 {
        KEYCODE_A
    } else if key == 0x8 {
        KEYCODE_S
    } else if key == 0x9 {
        KEYCODE_D
    } else if key == 0xA {
        KEYCODE_Z
    } else if key == 0xB {
        KEYCODE_C
    } else if key == 0xC {
        KEYCODE_4
    } else if key == 0xD {
        KEYCODE_R
    } else if key == 0xE {
        KEYCODE_F
    } else {
        KEYCODE_V
    }
}

/// The keys held after pressing `key`; codes of 16 and above are ignored.
pub open spec fn keys_pressed(keys: Seq<bool>, key: u8) -> Seq<bool> {
    if key < 16 {
        keys.update(key as int, true)
    } else {
        keys
    }
}

/// The keys held after releasing `key`; codes of 16 and above are ignored.
pub open spec fn keys_released(keys: Seq<bool>, key: u8) -> Seq<bool> {
    if key < 16 {
        keys.update(key as int, false)
    } else {
        keys
    }
}

/// Lowest-numbered key held down, if any.
pub open spec fn first_pressed(keys: Seq<bool>) -> Option<u8> {
    if exists|k: int| 0 <= k < 16 && keys[k] {
        let k = choose|k: int| 0 <= k < 16 && keys[k] && forall|j: int| 0 <= j < k ==> !keys[j];
        Some(k as u8)
    } else {
        None
    }
}

/// A keyboard event reduced to what the keypad reads from it.
#[derive(Clone, Copy, Debug, PartialEq, Eq, Structural)]
pub enum KeyEvent {
    /// A host key with the given keycode went down.
    KeyDown(i32),
    /// A host key with the given keycode went up.
    KeyUp(i32),
    /// Any other event.
    Other,
}

/// State of the sixteen keys of the hexadecimal keypad.
pub struct Chip8Keyboard {
    keys: [bool; 16],
}

impl View for Chip8Keyboard {
    type V = Seq<bool>;

    closed spec fn view(&self) -> Seq<bool> {
        self.keys@
    }
}

impl Chip8Keyboard {
    /// The keypad always has sixteen keys.
    pub proof fn lemma_len(&self)
        ensures
            self@.len() == 16,
    {
    }

    /// A keypad with no key held.
    pub fn new() -> (kb: Self)
        ensures
            kb@ == Seq::new(16, |k: int| false),
    {
        let kb = Self { keys: [false; 16] };
        assert(kb@ =~= Seq::new(16, |k: int| false));
        kb
    }

    /// Marks `chip8_key` as held; codes of 16 and above are ignored.
    pub fn key_down(&mut self, chip8_key: u8)
        ensures
            final(self)@ == keys_pressed(old(self)@, chip8_key),
    {
        if chip8_key < 16 {
            self.keys[chip8_key as usize] = true;
        }
    }

    /// Marks `chip8_key` as released; codes of 16 and above are ignored.
    pub fn key_up(&mut self, chip8_key: u8)
        ensures
            final(self)@ == keys_released(old(self)@, chip8_key),
    {
        if chip8_key < 16 {
            self.keys[chip8_key as usize] = false;
        }
    }

    /// The lowest-numbered key that is held, or `None` when none is.
    pub fn is_n_key_pressed(&mut self) -> (key: Option<u8>)
        ensures
            final(self)@ == old(self)@,
            key == first_pressed(old(self)@),
            match key {
                Some(k) => k < 16 && old(self)@[k as int] && forall|j: int|
                    0 <= j < k ==> !old(self)@[j],
                None => forall|j: int| 0 <= j < 16 ==> !old(self)@[j],
            },
    {
        let mut i: usize = 0;
        while i < 16
            invariant
                0 <= i <= 16,
                self@.len() == 16,
                forall|j: int| 0 <= j < i ==> !self@[j],
            decreases 16 - i,
        {
            if self.keys[i] {
                let ghost keys = self@;
                assert(0 <= i < 16 && keys[i as int]);
                assert forall|k: int|
                    0 <= k < 16 && keys[k] && (forall|j: int| 0 <= j < k ==> !keys[j]) implies k
                    == i by {
                    if k < i {
                    } else if k > i {
                        assert(!keys[i as int]);
                    }
                }
                return Some(i as u8);
            }
            i = i + 1;
        }
        None
    }

    /// Whether `chip8_key` is held.
    pub fn is_pressed(&mut self, chip8_key: u8) -> (held: bool)
        requires
            chip8_key < 16,
        ensures
            final(self)@ == old(self)@,
            held == old(self)@[chip8_key as int],
    {
        self.keys[chip8_key as usize]
    }

    /// Applies a host keyboard event: a key of the layout goes down or up,
    /// anything else leaves the keypad as it is.
    pub fn handle_sdl_event(&mut self, event: &KeyEvent)
        ensures
            final(self)@ == match *event {
                KeyEvent::KeyDown(code) => match key_layout(code) {
                    Some(k) => keys_pressed(old(self)@, k),
                    None => old(self)@,
                },
                KeyEvent::KeyUp(code) => match key_layout(code) {
                    Some(k) => keys_released(old(self)@, k),
                    None => old(self)@,
                },
                KeyEvent::Other => old(self)@,
            },
    {
        match event {
            KeyEvent::KeyDown(key) => {
                if let Some(k) = Self::sdl_to_chip8(*key) {
                    self.key_down(k);
                }
            },
            KeyEvent::KeyUp(key) => {
                if let Some(k) = Self::sdl_to_chip8(*key) {
                    self.key_up(k);
                }
            },
            KeyEvent::Other => {},
        }
    }

    /// The keypad key that host key `key` stands for, if any.
    pub fn sdl_to_chip8(key: i32) -> (chip8_key: Option<u8>)
        ensures
            chip8_key == key_layout(key),
    {
        match key {
            KEYCODE_1 => Some(0x1),
            KEYCODE_2 => Some(0x2),
            KEYCODE_3 => Some(0x3),
            KEYCODE_4 => Some(0xC),
            KEYCODE_Q => Some(0x4),
            KEYCODE_W => Some(0x5),
            KEYCODE_E => Some(0x6),
            KEYCODE_R => Some(0xD),
            KEYCODE_A => Some(0x7),
            KEYCODE_S => Some(0x8),
            KEYCODE_D => Some(0x9),
            KEYCODE_F => Some(0xE),
            KEYCODE_Z => Some(0xA),
            KEYCODE_X => Some(0x0),
            KEYCODE_C => Some(0xB),
            KEYCODE_V => Some(0xF),
            _ => None,
        }
    }
}

/// The layout is a one-to-one correspondence between sixteen host keys and
/// the sixteen keypad keys: every host key it knows stands for a keypad key,
/// and every keypad key has exactly the host key `layout_keycode` for it.
pub proof fn lemma_layout_bijective(keycode: i32, key: u8)
    ensures
        key_layout(keycode) matches Some(k) ==> k < 16 && layout_keycode(k) == keycode,
        key < 16 ==> key_layout(layout_keycode(key)) == Some(key),
{
}

/// Pressing a key makes it held and leaves the others as they were;
/// releasing it afterwards restores a keypad on which it was not held.
pub proof fn lemma_press_release(keys: Seq<bool>, key: u8, other: int)
    requires
        keys.len() == 16,
        key < 16,
        0 <= other < 16,
        other != key,
    ensures
        keys_pressed(keys, key)[key as int],
        keys_pressed(keys, key)[other] == keys[other],
        !keys_released(keys, key)[key as int],
        keys_released(keys, key)[other] == keys[other],
        !keys[key as int] ==> keys_released(keys_pressed(keys, key), key) == keys,
{
    if !keys[key as int] {
        assert(keys_released(keys_pressed(keys, key), key) =~= keys);
    }
}

/// The host keys in their physical 4 x 4 block, row by row: 1234, QWER,
/// ASDF, ZXCV.
pub open spec fn host_block() -> Seq<char> {
    seq!['1', '2', '3', '4', 'q', 'w', 'e', 'r', 'a', 's', 'd', 'f', 'z', 'x', 'c', 'v']
}

/// The CHIP-8 hexadecimal keypad in its physical 4 x 4 layout, row by row:
/// 123C, 456D, 789E, A0BF.
pub open spec fn keypad_block() -> Seq<u8> {
    seq![0x1u8, 0x2, 0x3, 0xC, 0x4, 0x5, 0x6, 0xD, 0x7, 0x8, 0x9, 0xE, 0xA, 0x0, 0xB, 0xF]
}

/// The layout maps keys by position: the host key at a place of the 1234 /
/// QWER / ASDF / ZXCV block (keycode = the character's code) stands for the
/// keypad key at the same place of the 123C / 456D / 789E / A0BF keypad,
/// and every other keycode stands for nothing.
pub proof fn lemma_layout_by_position(p: int, keycode: i32)
    requires
        0 <= p < 16,
    ensures
        key_layout(host_block()[p] as i32) == Some(keypad_block()[p]),
        (forall|q: int| 0 <= q < 16 ==> keycode != #[trigger] host_block()[q] as i32) ==> key_layout(
            keycode,
        ) is None,
{
    assert(host_block()[0] == '1' && host_block()[1] == '2' && host_block()[2] == '3' && host_block()[3] == '4');
    assert(host_block()[4] == 'q' && host_block()[5] == 'w' && host_block()[6] == 'e' && host_block()[7] == 'r');
    assert(host_block()[8] == 'a' && host_block()[9] == 's' && host_block()[10] == 'd' && host_block()[11] == 'f');
    assert(host_block()[12] == 'z' && host_block()[13] == 'x' && host_block()[14] == 'c' && host_block()[15] == 'v');
    if forall|q: int| 0 <= q < 16 ==> keycode != #[trigger] host_block()[q] as i32 {
        assert(keycode != host_block()[0] as i32);
        assert(keycode != host_block()[1] as i32);
        assert(keycode != host_block()[2] as i32);
        assert(keycode != host_block()[3] as i32);
        assert(keycode != host_block()[4] as i32);
        assert(keycode != host_block()[5] as i32);
        assert(keycode != host_block()[6] as i32);
        assert(keycode != host_block()[7] as i32);
        assert(keycode != host_block()[8] as i32);
        assert(keycode != host_block()[9] as i32);
        assert(keycode != host_block()[10] as i32);
        assert(keycode != host_block()[11] as i32);
        assert(keycode != host_block()[12] as i32);
        assert(keycode != host_block()[13] as i32);
        assert(keycode != host_block()[14] as i32);
        assert(keycode != host_block()[15] as i32);
    }
}

} // verus!
