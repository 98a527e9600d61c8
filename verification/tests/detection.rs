use track_analyzer::color::Rgb;
use track_analyzer::frame::Frame;
use track_analyzer::track::{get_avg_color_in_pixel_field_wh, BallColor, Direction, Mark, State};

fn rgb(r: u8, g: u8, b: u8) -> Rgb {
    Rgb { r, g, b }
}

fn filled(w: u32, h: u32, c: Rgb) -> Frame {
    let mut data = Vec::new();
    for _ in 0..(w * h) {
        data.push(c.r);
        data.push(c.g);
        data.push(c.b);
    }
    Frame::from_raw(w, h, data).unwrap()
}

/// A black 100 x 100 image with a white square over [x0, x0 + 20) x [y0, y0 + 20).
fn ball_at(x0: u32, y0: u32) -> Frame {
    let mut f = filled(100, 100, rgb(0, 0, 0));
    for x in x0..x0 + 20 {
        for y in y0..y0 + 20 {
            f.put_pixel(x, y, rgb(255, 255, 255));
        }
    }
    f
}

fn mark(x: i32, y: i32) -> Mark {
    Mark { x, y, color: BallColor::White, to_be_deleted: false }
}

#[test]
fn direction_vectors() {
    assert_eq!(Direction::Up.vec(), (0, -1));
    assert_eq!(Direction::Right.vec(), (1, 0));
    assert_eq!(Direction::Diagonal.vec(), (-1, -1));
    assert_eq!(Direction::AntiDiagonal.vec(), (1, -1));
}

#[test]
fn field_average_is_cut_short_at_the_edges() {
    let img = filled(10, 10, rgb(100, 100, 100));
    assert_eq!(get_avg_color_in_pixel_field_wh(&img, 0, 0, 4, 4), rgb(100, 100, 100));
    // the whole image: 8 x 8 pixels are averaged
    assert_eq!(get_avg_color_in_pixel_field_wh(&img, 0, 0, 10, 10), rgb(100, 100, 100));
    // past the cut: nothing is left
    assert_eq!(get_avg_color_in_pixel_field_wh(&img, 8, 0, 4, 4), rgb(0, 0, 0));
    // partly past the cut: 2 of 4 columns are averaged
    assert_eq!(get_avg_color_in_pixel_field_wh(&img, 6, 0, 4, 4), rgb(100, 100, 100));
    let big = filled(20, 20, rgb(100, 100, 100));
    assert_eq!(get_avg_color_in_pixel_field_wh(&big, 10, 10, 10, 10), rgb(100, 100, 100));
}

#[test]
fn field_average_rounds_down() {
    let mut img = filled(10, 10, rgb(0, 0, 0));
    for x in 5..10 {
        for y in 0..10 {
            img.put_pixel(x, y, rgb(200, 201, 7));
        }
    }
    // columns 3 and 4 dark, 5 and 6 lit
    assert_eq!(get_avg_color_in_pixel_field_wh(&img, 3, 0, 4, 4), rgb(100, 100, 3));
    // clipped at the right: columns 5 to 7 remain, all lit
    assert_eq!(get_avg_color_in_pixel_field_wh(&img, 5, 0, 6, 2), rgb(200, 201, 7));
}

#[test]
fn state_needs_an_image_with_pixels() {
    assert!(State::new(filled(0, 0, rgb(0, 0, 0))).is_none());
    assert!(State::new(filled(0, 5, rgb(0, 0, 0))).is_none());
    let st = State::new(filled(10, 10, rgb(100, 100, 100))).unwrap();
    assert_eq!(st.global_avg, rgb(100, 100, 100));
}

#[test]
fn colour_distance_to_the_background() {
    let st = State::new(filled(10, 10, rgb(100, 100, 100))).unwrap();
    assert_eq!(st.color_diff(rgb(100, 64, 0)), 36 * 36 + 100 * 100);
    assert_eq!(st.color_diff(rgb(100, 100, 100)), 0);
    assert_eq!(st.color_diff(rgb(255, 255, 255)), 3 * 155 * 155);
    assert_eq!(st.get_avg_color_in_pixel_field(2, 2, 3), rgb(100, 100, 100));
}

#[test]
fn uniform_image_has_no_balls() {
    let st = State::new(filled(100, 100, rgb(100, 100, 100))).unwrap();
    assert!(st.find_candidates().is_empty());
    assert_eq!(st.edge(&mark(40, 40), Direction::Up), (0, 0));
    assert_eq!(st.detect_balls().map(|v| v.len()), Some(0));
}

#[test]
fn white_square_candidates() {
    let st = State::new(ball_at(40, 40)).unwrap();
    assert_eq!(st.global_avg, rgb(10, 10, 10));
    let c = st.find_candidates();
    let pos: Vec<(i32, i32)> = c.iter().map(|m| (m.x, m.y)).collect();
    assert_eq!(pos, vec![(40, 40), (40, 50), (50, 40), (50, 50)]);
    assert!(c.iter().all(|m| m.color == BallColor::White && !m.to_be_deleted));
}

#[test]
fn probe_walks_along_the_ball() {
    let st = State::new(ball_at(40, 40)).unwrap();
    let m = mark(40, 40);
    assert!(st.edge_fits(40, 40, Direction::Up));
    // upwards two probes still reach the ball, downwards all four
    assert_eq!(st.edge(&m, Direction::Up), (2, 4));
    assert_eq!(st.edge(&m, Direction::Right), (4, 2));
}

#[test]
fn candidates_move_to_the_ball_centre() {
    let st = State::new(ball_at(40, 40)).unwrap();
    for (x, y) in [(40, 40), (40, 50), (50, 40), (50, 50)] {
        let r = st.refine_mark(mark(x, y)).unwrap();
        assert_eq!((r.x, r.y), (45, 45));
        assert!(!r.to_be_deleted);
        assert_eq!(r.color, BallColor::White);
    }
    let found = st.detect_balls().unwrap();
    assert_eq!(found.len(), 4);
    assert!(found.iter().all(|m| m.x == 45 && m.y == 45));
}

#[test]
fn a_mark_in_the_dark_is_struck_out() {
    let st = State::new(ball_at(40, 40)).unwrap();
    let r = st.refine_mark(mark(30, 80)).unwrap();
    assert!(r.to_be_deleted);
    assert_eq!((r.x, r.y), (30, 80));
}

#[test]
fn probes_above_the_image_are_refused() {
    let st = State::new(ball_at(0, 0)).unwrap();
    assert!(!st.edge_fits(0, 0, Direction::Up));
    assert!(st.refine_mark(mark(0, 0)).is_none());
    assert!(st.detect_balls().is_none());
}
