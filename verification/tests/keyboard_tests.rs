use chip8::keyboard::{Chip8Keyboard, KeyEvent, KEYCODE_1, KEYCODE_4, KEYCODE_Q, KEYCODE_V, KEYCODE_X};

#[test]
fn new_keyboard_has_no_key_held() {
    let mut kb = Chip8Keyboard::new();
    assert_eq!(kb.is_n_key_pressed(), None);
    for k in 0..16u8 {
        assert!(!kb.is_pressed(k));
    }
}

#[test]
fn key_down_then_up() {
    let mut kb = Chip8Keyboard::new();
    kb.key_down(5);
    assert!(kb.is_pressed(5));
    assert!(!kb.is_pressed(4));
    kb.key_up(5);
    assert!(!kb.is_pressed(5));
}

#[test]
fn keys_of_sixteen_and_above_are_ignored() {
    let mut kb = Chip8Keyboard::new();
    kb.key_down(16);
    kb.key_down(255);
    assert_eq!(kb.is_n_key_pressed(), None);
    kb.key_down(3);
    kb.key_up(200);
    assert!(kb.is_pressed(3));
}

#[test]
fn lowest_held_key_is_reported() {
    let mut kb = Chip8Keyboard::new();
    kb.key_down(0xC);
    kb.key_down(0x7);
    assert_eq!(kb.is_n_key_pressed(), Some(0x7));
    kb.key_down(0x0);
    assert_eq!(kb.is_n_key_pressed(), Some(0x0));
    kb.key_up(0x0);
    kb.key_up(0x7);
    assert_eq!(kb.is_n_key_pressed(), Some(0xC));
}

#[test]
fn layout_maps_host_keys_to_keypad() {
    let table: [(char, u8); 16] = [
        ('1', 0x1), ('2', 0x2), ('3', 0x3), ('4', 0xC),
        ('q', 0x4), ('w', 0x5), ('e', 0x6), ('r', 0xD),
        ('a', 0x7), ('s', 0x8), ('d', 0x9), ('f', 0xE),
        ('z', 0xA), ('x', 0x0), ('c', 0xB), ('v', 0xF),
    ];
    for (c, k) in table.iter() {
        assert_eq!(Chip8Keyboard::sdl_to_chip8(*c as i32), Some(*k));
    }
    assert_eq!(Chip8Keyboard::sdl_to_chip8(KEYCODE_1), Some(1));
    assert_eq!(Chip8Keyboard::sdl_to_chip8(KEYCODE_4), Some(0xC));
    assert_eq!(Chip8Keyboard::sdl_to_chip8(KEYCODE_X), Some(0));
    assert_eq!(Chip8Keyboard::sdl_to_chip8(KEYCODE_V), Some(0xF));
}

#[test]
fn layout_is_one_to_one() {
    let mut seen = [false; 16];
    for code in 0..200i32 {
        if let Some(k) = Chip8Keyboard::sdl_to_chip8(code) {
            assert!(k < 16);
            assert!(!seen[k as usize]);
            seen[k as usize] = true;
        }
    }
    assert!(seen.iter().all(|s| *s));
}

#[test]
fn other_host_keys_are_not_mapped() {
    assert_eq!(Chip8Keyboard::sdl_to_chip8(27), None);
    assert_eq!(Chip8Keyboard::sdl_to_chip8(32), None);
    assert_eq!(Chip8Keyboard::sdl_to_chip8('5' as i32), None);
    assert_eq!(Chip8Keyboard::sdl_to_chip8('Q' as i32), None);
    assert_eq!(Chip8Keyboard::sdl_to_chip8(-1), None);
}

#[test]
fn events_press_and_release_keys() {
    let mut kb = Chip8Keyboard::new();
    kb.handle_sdl_event(&KeyEvent::KeyDown(KEYCODE_Q));
    assert!(kb.is_pressed(4));
    kb.handle_sdl_event(&KeyEvent::KeyDown('5' as i32));
    assert_eq!(kb.is_n_key_pressed(), Some(4));
    kb.handle_sdl_event(&KeyEvent::Other);
    assert!(kb.is_pressed(4));
    kb.handle_sdl_event(&KeyEvent::KeyUp(KEYCODE_Q));
    assert!(!kb.is_pressed(4));
    assert_eq!(kb.is_n_key_pressed(), None);
}
