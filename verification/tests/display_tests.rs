use chip8::display::Chip8Display;

#[test]
fn new_display_is_blank() {
    let d = Chip8Display::new();
    assert!(d.pixels.iter().all(|row| row.iter().all(|p| !*p)));
}

#[test]
fn xor_pixel_toggles_and_reports_previous() {
    let mut d = Chip8Display::new();
    assert!(!d.xor_pixel(3, 5));
    assert!(d.pixels[5][3]);
    assert!(d.xor_pixel(3, 5));
    assert!(!d.pixels[5][3]);
}

#[test]
fn xor_pixel_off_screen_does_nothing() {
    let mut d = Chip8Display::new();
    assert!(!d.xor_pixel(64, 0));
    assert!(!d.xor_pixel(0, 32));
    assert!(!d.xor_pixel(1000, 1000));
    assert!(d.pixels.iter().all(|row| row.iter().all(|p| !*p)));
}

#[test]
fn corners_are_addressable() {
    let mut d = Chip8Display::new();
    assert!(!d.xor_pixel(63, 31));
    assert!(!d.xor_pixel(0, 0));
    assert!(d.pixels[31][63]);
    assert!(d.pixels[0][0]);
}
