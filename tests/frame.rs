use asciimation::animations::{Animation, MovingBlocks, RandomWalkers, TextOverlay, GOL};
use asciimation::color::{Color, FULL};
use asciimation::filters::{fadeout, DVDLogo};
use asciimation::frame::{Character, Frame, FrameError};

#[test]
fn new_frame_is_empty() {
    let frame = Frame::new(3, 2).unwrap();
    assert_eq!(frame.data.len(), 6);
    assert!(frame.data.iter().all(|c| *c == Character::empty()));
}

#[test]
fn new_frame_rejects_zero_dimensions() {
    assert_eq!(Frame::new(0, 4).unwrap_err(), FrameError::InvalidDimensions);
    assert_eq!(Frame::new(4, 0).unwrap_err(), FrameError::InvalidDimensions);
}

#[test]
fn set_at_clipping_ignores_outside() {
    let mut frame = Frame::new(2, 2).unwrap();
    let x = Character { color: Color::white(), character: 'x' };
    frame.set_at_clipping(-1, 0, x);
    frame.set_at_clipping(2, 1, x);
    frame.set_at_clipping(0, 2, x);
    assert!(frame.data.iter().all(|c| *c == Character::empty()));
    frame.set_at_clipping(1, 1, x);
    assert_eq!(*frame.get(1, 1), x);
    assert_eq!(frame.data[3], x);
}

#[test]
fn get_mut_writes_row_major() {
    let mut frame = Frame::new(3, 2).unwrap();
    frame.get_mut(2, 1).character = 'z';
    assert_eq!(frame.data[5].character, 'z');
}

#[test]
fn character_render_escape() {
    let c = Character { color: Color { r: FULL, g: FULL / 2, b: 0 }, character: 'A' };
    let text: String = c.render().into_iter().collect();
    assert_eq!(text, "\x1b[38;2;255;128;0mA");
}

#[test]
fn frame_render_text() {
    let mut frame = Frame::new(2, 2).unwrap();
    frame.set_at(1, 0, Character { color: Color::white(), character: '#' });
    let text: String = frame.render().into_iter().collect();
    let blank = "\x1b[38;2;0;0;0m ";
    let expected = format!(
        "\x1B[1;1H\x1B[?25l{}{}\n{}{}",
        blank, "\x1b[38;2;255;255;255m#", blank, blank
    );
    assert_eq!(text, expected);
}

fn filled(w: usize, h: usize, c: Character) -> Frame {
    let mut frame = Frame::new(w, h).unwrap();
    for i in 0..frame.data.len() {
        frame.data[i] = c;
    }
    frame
}

#[test]
fn fadeout_to_zero_blanks_everything() {
    let hash = Character { color: Color::white(), character: '#' };
    let mut frame = filled(10, 4, hash);
    fadeout(&mut frame, 0);
    assert!(frame.data.iter().all(|c| c.character == ' ' && c.color == Color::black()));
}

#[test]
fn fadeout_by_one_keeps_frame() {
    let hash = Character { color: Color { r: 5000, g: 4000, b: 3000 }, character: '#' };
    let mut frame = filled(10, 4, hash);
    fadeout(&mut frame, FULL);
    assert!(frame.data.iter().all(|c| *c == hash));
}

#[test]
fn fadeout_blanks_dim_cells() {
    let hash = Character { color: Color::white(), character: '#' };
    let mut frame = filled(2, 1, hash);
    fadeout(&mut frame, FULL / 20);
    assert_eq!(frame.data[0].character, ' ');
    assert_eq!(frame.data[0].color, Color { r: 300, g: 300, b: 300 });
    let mut frame = filled(2, 1, hash);
    fadeout(&mut frame, FULL / 2);
    assert_eq!(frame.data[1].character, '#');
}

#[test]
fn text_overlay_wraps_and_breaks_lines() {
    let mut frame = Frame::new(3, 3).unwrap();
    let mut overlay = TextOverlay { text: String::from("abcd\ne") };
    overlay.render(&mut frame);
    let text: String = frame.data.iter().map(|c| c.character).collect();
    assert_eq!(text, "abcd  e  ");
    assert_eq!(frame.get(0, 1).color, Color::white());
}

#[test]
fn text_overlay_stops_when_full() {
    let mut frame = Frame::new(2, 1).unwrap();
    let mut overlay = TextOverlay { text: String::from("xyz") };
    overlay.render(&mut frame);
    let text: String = frame.data.iter().map(|c| c.character).collect();
    assert_eq!(text, "xy");
}

#[test]
fn dvd_logo_draws_and_moves() {
    let mut frame = Frame::new(80, 20).unwrap();
    let mut logo = DVDLogo::default();
    logo.draw(&mut frame);
    assert_eq!(frame.get(4, 0).character, ' ');
    assert_eq!(frame.get(5, 0).character, '@');
    assert_eq!(frame.get(5, 0).color, Color::white());
    logo.step(&frame);
    let mut frame = Frame::new(80, 20).unwrap();
    logo.draw(&mut frame);
    assert_eq!(frame.get(7, 1).character, '@');
    assert_eq!(frame.get(6, 1).character, ' ');
}

#[test]
fn generators_keep_frame_size() {
    let mut gens: Vec<Box<dyn Animation>> = vec![
        Box::new(GOL::default()),
        Box::new(MovingBlocks::default()),
        Box::new(RandomWalkers::default()),
    ];
    for g in gens.iter_mut() {
        for size in [(7, 5), (3, 9), (12, 12)] {
            let mut frame = Frame::new(size.0, size.1).unwrap();
            g.render(&mut frame);
            assert_eq!((frame.x, frame.y, frame.data.len()), (size.0, size.1, size.0 * size.1));
        }
    }
}

#[test]
fn moving_blocks_slide_every_eight_renders() {
    let mut blocks = MovingBlocks::default();
    for _ in 0..8 {
        let mut frame = Frame::new(12, 12).unwrap();
        blocks.render(&mut frame);
    }
    let mut frame = Frame::new(12, 12).unwrap();
    blocks.render(&mut frame);
    assert_eq!(frame.get(0, 0).character, ' ');
    assert_eq!(frame.get(1, 0).character, 'X');
    assert_eq!(frame.get(3, 0).character, 'X');
    assert_eq!(frame.get(0, 5).character, '%');
    assert_eq!(frame.get(0, 4).character, ' ');
}

#[test]
fn moving_blocks_first_frame() {
    let mut frame = Frame::new(12, 12).unwrap();
    let mut blocks = MovingBlocks::default();
    blocks.render(&mut frame);
    assert_eq!(frame.get(0, 0).character, 'X');
    assert_eq!(frame.get(6, 6).character, '#');
}
