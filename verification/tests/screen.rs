use trw::screen::{pack, Fg, Screen, SPACE};

fn frame_after(screen: &mut Screen) -> (usize, Vec<u8>) {
    let n = screen.present();
    (n, screen.output().to_vec())
}

#[test]
fn fg_from_u8_and_sgr() {
    assert_eq!(Fg::from_u8(0), Fg::Default);
    assert_eq!(Fg::from_u8(1), Fg::Cyan);
    assert_eq!(Fg::from_u8(2), Fg::Red);
    assert_eq!(Fg::from_u8(3), Fg::Yellow);
    assert_eq!(Fg::from_u8(4), Fg::LightBlue);
    assert_eq!(Fg::from_u8(5), Fg::Default);
    assert_eq!(Fg::from_u8(255), Fg::Default);
    assert_eq!(Fg::Default.sgr(), b"\x1b[0m");
    assert_eq!(Fg::Cyan.sgr(), b"\x1b[36m");
    assert_eq!(Fg::Red.sgr(), b"\x1b[31m");
    assert_eq!(Fg::Yellow.sgr(), b"\x1b[33m");
    assert_eq!(Fg::LightBlue.sgr(), b"\x1b[94m");
    // the stored number of each colour reads back as that colour
    for f in [Fg::Default, Fg::Cyan, Fg::Red, Fg::Yellow, Fg::LightBlue] {
        assert_eq!(Fg::from_u8(f as u8), f);
    }
}

#[test]
fn pack_layout() {
    assert_eq!(pack(' ', 0), SPACE);
    assert_eq!(pack('A', 3), (0x41 << 8) | 3);
    assert_eq!(pack('⣿', 4), (0x28ff << 8) | 4);
}

#[test]
fn new_screen_is_blank_and_silent() {
    let mut s = Screen::new(4, 2);
    assert_eq!(s.size(), (4, 2));
    let (n, out) = frame_after(&mut s);
    assert_eq!(n, 0);
    assert!(out.is_empty());
}

#[test]
fn present_sends_only_changed_runs() {
    let mut s = Screen::new(5, 2);
    s.set(1, 0, 'a', 0);
    s.set(2, 0, 'b', 0);
    s.set(4, 1, 'c', 2);
    let (n, out) = frame_after(&mut s);
    assert_eq!(n, 3);
    assert_eq!(out, b"\x1b[1;2H\x1b[0mab\x1b[2;5H\x1b[31mc".to_vec());
    // the same picture again: blank cells replace what was shown
    let (n, out) = frame_after(&mut s);
    assert_eq!(n, 3);
    assert_eq!(out, b"\x1b[1;2H\x1b[0m  \x1b[2;5H\x1b[0m ".to_vec());
    // nothing drawn on a blank screen: nothing sent
    let (n, out) = frame_after(&mut s);
    assert_eq!(n, 0);
    assert!(out.is_empty());
}

#[test]
fn colour_codes_only_when_colour_changes() {
    let mut s = Screen::new(4, 1);
    s.set(0, 0, 'x', 1);
    s.set(1, 0, 'y', 1);
    s.set(2, 0, 'z', 3);
    let (_, out) = frame_after(&mut s);
    assert_eq!(out, b"\x1b[1;1H\x1b[36mxy\x1b[33mz".to_vec());
}

#[test]
fn multibyte_glyphs_are_utf8() {
    let mut s = Screen::new(2, 1);
    s.set(0, 0, '⣿', 0);
    s.set(1, 0, 'é', 0);
    let (_, out) = frame_after(&mut s);
    let mut expected = b"\x1b[1;1H\x1b[0m".to_vec();
    expected.extend_from_slice("⣿é".as_bytes());
    assert_eq!(out, expected);
}

#[test]
fn set_off_screen_is_ignored() {
    let mut s = Screen::new(3, 3);
    s.set(3, 0, 'a', 0);
    s.set(0, 3, 'a', 0);
    s.set(99, 99, 'a', 0);
    let (n, out) = frame_after(&mut s);
    assert_eq!(n, 0);
    assert!(out.is_empty());
}

#[test]
fn resize_clears_and_repaints() {
    let mut s = Screen::new(2, 2);
    s.resize(2, 2);
    let (_, out) = frame_after(&mut s);
    assert!(out.is_empty());
    s.resize(3, 1);
    assert_eq!(s.size(), (3, 1));
    s.set(2, 0, 'q', 0);
    let (n, out) = frame_after(&mut s);
    assert_eq!(n, 1);
    assert_eq!(out, b"\x1b[2J\x1b[1;3H\x1b[0mq".to_vec());
}

#[test]
fn cursor_and_number_encoding() {
    let mut out = Vec::new();
    Screen::push_usize(&mut out, 0);
    out.push(b',');
    Screen::push_usize(&mut out, 7);
    out.push(b',');
    Screen::push_usize(&mut out, 1234567890);
    assert_eq!(out, b"0,7,1234567890".to_vec());
    let mut out = Vec::new();
    Screen::push_cursor(&mut out, 0, 0);
    Screen::push_cursor(&mut out, 9, 41);
    assert_eq!(out, b"\x1b[1;1H\x1b[10;42H".to_vec());
}
