use asciimation::color::{Color, FULL};
use asciimation::frame::{Character, Frame};
use asciimation::utils::{clip, fill_block, plot_line, Point, PIXEL};

fn p(x: f64, y: f64) -> Point {
    Point::new((x * PIXEL as f64).round() as i32, (y * PIXEL as f64).round() as i32)
}

fn c(v: f64) -> i32 {
    (v * PIXEL as f64).round() as i32
}

#[test]
fn test_clip() {
    // trivial accept
    let p1 = p(1.0, 1.0);
    let p2 = p(2.0, 2.0);

    let (r1, r2) = clip(p1, p2, c(-2.0), c(4.0), c(0.5), c(2.5)).unwrap();

    assert_eq!(p1, r1);
    assert_eq!(p2, r2);

    // trivial reject
    assert_eq!(clip(p1, p2, c(-2.0), c(0.0), c(0.5), c(2.5)), None);

    // test actual clip
    let (r1, r2) = clip(p1, p2, c(1.5), c(4.0), c(-0.5), c(2.5)).unwrap();

    let expected_r1 = p(1.5, 1.5);

    assert!(((r1.x - expected_r1.x) as f64 / PIXEL as f64).abs() < 1.0e-5);
    assert!(((r1.y - expected_r1.y) as f64 / PIXEL as f64).abs() < 1.0e-5);
    assert_eq!(p2, r2);
}

#[test]
fn clip_exit_through_right_edge() {
    let (r1, r2) = clip(p(1.0, 1.0), p(5.0, 3.0), 0, c(3.0), 0, c(4.0)).unwrap();
    assert_eq!(r1, p(1.0, 1.0));
    assert_eq!(r2, p(3.0, 2.0));
}

#[test]
fn clip_enter_through_top_edge() {
    // starts above y_max, ends inside
    let (r1, r2) = clip(p(2.0, 6.0), p(2.0, 1.0), 0, c(4.0), 0, c(4.0)).unwrap();
    assert_eq!(r1, p(2.0, 4.0));
    assert_eq!(r2, p(2.0, 1.0));
}

#[test]
fn clip_both_ends_outside_crossing() {
    let (r1, r2) = clip(p(-2.0, 1.0), p(6.0, 1.0), 0, c(4.0), 0, c(4.0)).unwrap();
    assert_eq!(r1, p(0.0, 1.0));
    assert_eq!(r2, p(4.0, 1.0));
}

#[test]
fn clip_missing_corner_gives_nothing() {
    // passes outside the corner: leaves through the top before entering on the left
    assert_eq!(clip(p(-2.0, 3.0), p(1.0, 6.0), 0, c(4.0), 0, c(4.0)), None);
}

#[test]
fn clip_is_idempotent() {
    let rect = (c(0.5), c(3.5), c(-1.0), c(2.0));
    let (a, b) = clip(p(-1.0, -3.0), p(5.0, 4.0), rect.0, rect.1, rect.2, rect.3).unwrap();
    assert_eq!(clip(a, b, rect.0, rect.1, rect.2, rect.3), Some((a, b)));
}

#[test]
fn clip_zero_length_segment() {
    assert_eq!(clip(p(1.0, 1.0), p(1.0, 1.0), 0, c(2.0), 0, c(2.0)), Some((p(1.0, 1.0), p(1.0, 1.0))));
    assert_eq!(clip(p(3.0, 1.0), p(3.0, 1.0), 0, c(2.0), 0, c(2.0)), None);
}

fn marked(frame: &Frame) -> Vec<(usize, usize)> {
    let mut cells = Vec::new();
    for y in 0..frame.y {
        for x in 0..frame.x {
            if frame.get(x, y).character == '#' {
                cells.push((x, y));
            }
        }
    }
    cells
}

fn hash(_x: isize, _y: isize) -> Character {
    Character { color: Color::white(), character: '#' }
}

#[test]
fn plot_line_horizontal_sets_six_cells() {
    let mut frame = Frame::new(10, 10).unwrap();
    plot_line(&mut frame, p(0.0, 0.0), p(5.0, 0.0), &hash);
    assert_eq!(marked(&frame), (0..6).map(|x| (x, 0)).collect::<Vec<_>>());
}

#[test]
fn plot_line_vertical_sets_six_cells() {
    let mut frame = Frame::new(10, 10).unwrap();
    plot_line(&mut frame, p(0.0, 0.0), p(0.0, 5.0), &hash);
    assert_eq!(marked(&frame), (0..6).map(|y| (0, y)).collect::<Vec<_>>());
}

#[test]
fn plot_line_diagonal_and_reversed() {
    let mut frame = Frame::new(10, 10).unwrap();
    plot_line(&mut frame, p(4.0, 2.0), p(0.0, 0.0), &hash);
    assert_eq!(marked(&frame), vec![(0, 0), (1, 0), (2, 1), (3, 1), (4, 2)]);
}

#[test]
fn plot_line_crossing_frame_draws_inside_part_only() {
    let mut frame = Frame::new(4, 3).unwrap();
    plot_line(&mut frame, p(-3.0, 1.0), p(8.0, 1.0), &hash);
    assert_eq!(marked(&frame), vec![(0, 1), (1, 1), (2, 1), (3, 1)]);
}

#[test]
fn plot_line_passes_coordinates_to_the_glyph_function() {
    let mut frame = Frame::new(6, 2).unwrap();
    let colored = |x: isize, _y: isize| Character {
        color: Color::black().interpolate(&Color::white(), (x as u32) * FULL / 5),
        character: 'o',
    };
    plot_line(&mut frame, p(0.0, 1.0), p(5.0, 1.0), &colored);
    assert_eq!(frame.get(0, 1).color, Color::black());
    assert_eq!(frame.get(5, 1).color, Color::white());
    assert_eq!(frame.get(1, 1).color.r, FULL / 5);
}

#[test]
fn fill_block_clips_at_edges() {
    let mut frame = Frame::new(4, 4).unwrap();
    let block = Character { color: Color::white(), character: '#' };
    fill_block(&mut frame, -1, 2, 3, 5, block);
    assert_eq!(marked(&frame), vec![(0, 2), (1, 2), (0, 3), (1, 3)]);
}
