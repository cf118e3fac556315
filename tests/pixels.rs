use asciimation::animations::{Animation, BoolMatrix, Pixels, QrCode};
use asciimation::color::Color;
use asciimation::frame::{Character, Frame};

#[test]
fn pixels_draw_half_blocks() {
    // 2 rows, 4 columns: row 0 = light dark light light, row 1 = dark dark dark light
    let image = BoolMatrix::from_columns(
        2,
        4,
        vec![true, false, false, false, true, false, true, true],
    )
    .unwrap();
    let mut pixels = Pixels { pos_top_left: (1, 0), image };
    let mut frame = Frame::new(4, 3).unwrap();
    pixels.render(&mut frame);
    let grey = Color { r: 2400, g: 2400, b: 2400 };
    assert_eq!(*frame.get(1, 0), Character { character: '▀', color: grey });
    assert_eq!(*frame.get(1, 1), Character { character: '█', color: grey });
    assert_eq!(*frame.get(2, 0), Character { character: ' ', color: grey });
    assert_eq!(*frame.get(2, 1), Character { character: '▄', color: grey });
    assert_eq!(*frame.get(0, 0), Character::empty());
    assert_eq!(*frame.get(3, 2), Character::empty());
}

#[test]
fn bool_matrix_needs_matching_length() {
    assert!(BoolMatrix::from_columns(2, 3, vec![true; 5]).is_none());
    let m = BoolMatrix::from_columns(2, 3, vec![true, false, false, false, true, true]).unwrap();
    assert_eq!((m.nrows(), m.ncols()), (2, 3));
    assert!(m.at_or_false(0, 0));
    assert!(!m.at_or_false(1, 0));
    assert!(m.at_or_false(1, 2));
    assert!(!m.at_or_false(2, 0));
    let b = m.bordered();
    assert_eq!((b.nrows(), b.ncols()), (6, 7));
    assert!(b.at_or_false(0, 0));
    assert!(!b.at_or_false(3, 2));
    assert!(b.at_or_false(2, 2));
}

#[test]
fn qr_code_has_light_border() {
    let mut qr = QrCode::new("hello", (0, 0)).unwrap();
    // a version 1 symbol is 21 modules wide, 25 with its border
    let mut frame = Frame::new(25, 13).unwrap();
    qr.render(&mut frame);
    // the two border columns on the left are light on both halves
    assert_eq!(frame.get(0, 0).character, '█');
    assert_eq!(frame.get(1, 5).character, '█');
    // the finder pattern's dark corner starts at module (0, 0), pixel (2, 2)
    assert_eq!(frame.get(2, 1).character, ' ');
    // the last column of cells holds the bottom border row only in its upper half
    assert_eq!(frame.get(24, 12).character, '▀');
    // not every cell is light: the wrapped encoder produced a pattern
    assert!(frame.data.iter().any(|c| c.character != '█'));
}

#[test]
fn qr_code_rejects_oversized_text() {
    let long = "x".repeat(10_000);
    assert!(QrCode::new(&long, (0, 0)).is_none());
}
