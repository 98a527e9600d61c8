use track_analyzer::color::{Color, Hex, Rgb};
use track_analyzer::frame::Frame;
use track_analyzer::geometry::Position;
use track_analyzer::vision::{BetterTarget, Grouping, State, Targets};

fn rgb(r: u8, g: u8, b: u8) -> Rgb {
    Rgb { r, g, b }
}

fn blank(w: u32, h: u32) -> Frame {
    Frame::from_raw(w, h, vec![0u8; (w * h * 3) as usize]).unwrap()
}

fn paint(f: &mut Frame, x0: u32, y0: u32, x1: u32, y1: u32, c: Rgb) {
    for x in x0..x1 {
        for y in y0..y1 {
            f.put_pixel(x, y, c);
        }
    }
}

fn target(color: Color, hex: &str, precision: u8) -> BetterTarget {
    BetterTarget { color, target_hex: Hex::new(hex.to_string()), precision }
}

fn targets() -> Targets {
    Targets(vec![
        target(Color::Red, "#FF0000", 20),
        target(Color::White, "#FFFFFF", 20),
        target(Color::CarCenter, "#00FF00", 20),
        target(Color::CarDirection, "#0000FF", 20),
    ])
}

#[test]
fn frame_raw_round_trip() {
    let f = Frame::from_raw(2, 1, vec![1, 2, 3, 4, 5, 6]).unwrap();
    assert_eq!(f.dimensions(), (2, 1));
    assert_eq!(f.pixel_count(), 2);
    assert_eq!(f.get_pixel(1, 0), rgb(4, 5, 6));
    assert_eq!(f.into_raw(), vec![1, 2, 3, 4, 5, 6]);
    assert!(Frame::from_raw(2, 2, vec![0; 11]).is_none());
    assert!(Frame::from_raw(2, 2, vec![0; 12]).is_some());
}

#[test]
fn put_pixel_changes_one_pixel() {
    let mut f = blank(3, 3);
    f.put_pixel(1, 2, rgb(9, 8, 7));
    assert_eq!(f.get_pixel(1, 2), rgb(9, 8, 7));
    assert_eq!(f.get_pixel(2, 1), rgb(0, 0, 0));
    let c = f.clone();
    assert_eq!(c.into_raw(), f.into_raw());
}

#[test]
fn fill_rect_clips_to_the_image() {
    let mut f = blank(4, 4);
    f.fill_rect(-2, -2, 2, 1, rgb(1, 1, 1));
    assert_eq!(f.get_pixel(0, 0), rgb(1, 1, 1));
    assert_eq!(f.get_pixel(1, 0), rgb(1, 1, 1));
    assert_eq!(f.get_pixel(2, 0), rgb(0, 0, 0));
    assert_eq!(f.get_pixel(0, 1), rgb(0, 0, 0));
    f.fill_rect(3, 3, 10, 10, rgb(2, 2, 2));
    assert_eq!(f.get_pixel(3, 3), rgb(2, 2, 2));
    f.fill_rect(2, 2, 1, 3, rgb(5, 5, 5));
    assert_eq!(f.get_pixel(2, 2), rgb(0, 0, 0));
}

fn scene() -> Frame {
    let mut f = blank(80, 60);
    // a white ball: 16 x 16 = 256 pixels
    paint(&mut f, 10, 5, 26, 21, rgb(250, 250, 250));
    // a red wall strip: 60 x 6 = 360 pixels
    paint(&mut f, 5, 40, 65, 46, rgb(240, 10, 10));
    // a red cross blob: 15 x 16 = 240 pixels
    paint(&mut f, 50, 5, 65, 21, rgb(255, 0, 5));
    // a small white speck, dropped by the size filter
    paint(&mut f, 70, 50, 72, 52, rgb(255, 255, 255));
    // car markers
    paint(&mut f, 30, 22, 46, 38, rgb(0, 250, 0));
    f
}

#[test]
fn scan_group_and_filter() {
    let mut s = State::new(scene(), targets());
    s.scan_for_marks();
    assert_eq!(s.marks[5 * 80 + 10], Some(Color::White));
    assert_eq!(s.marks[40 * 80 + 5], Some(Color::Red));
    assert_eq!(s.marks[0], None);
    s.group_marks();
    assert_eq!(s.groupings.len(), 5);
    let mut volumes: Vec<usize> = s.groupings.iter().map(|g| g.volume()).collect();
    volumes.sort();
    assert_eq!(volumes, vec![4, 240, 256, 256, 360]);
    s.filter_groups();
    assert_eq!(s.groupings.len(), 4);
    assert!(s.groupings.iter().all(|g| g.volume() > 220));
    let balls = s.get_balls();
    assert_eq!(balls, vec![Position { x: 17, y: 12 }]);
    assert_eq!(s.get_car_center(), Position { x: 37, y: 29 });
    // no direction marker in the scene
    assert_eq!(s.get_car_direction(), Position { x: 0, y: 0 });
}

#[test]
fn later_targets_win() {
    let mut f = blank(2, 1);
    f.put_pixel(0, 0, rgb(200, 200, 200));
    let ts = Targets(vec![target(Color::White, "#C8C8C8", 5), target(Color::Orange, "#CACACA", 5)]);
    let mut s = State::new(f, ts);
    s.scan_for_marks();
    assert_eq!(s.marks[0], Some(Color::Orange));
    assert_eq!(s.marks[1], None);
}

#[test]
fn borders_sort_groups_and_obstacles_follow() {
    let mut s = State::new(scene(), targets());
    s.scan_for_marks();
    s.group_marks();
    s.filter_groups();
    let ok = s.find_borders_checked();
    assert!(ok);
    let volumes: Vec<usize> = s.groupings.iter().map(|g| g.volume()).collect();
    assert_eq!(volumes, vec![360, 256, 256, 240]);
    let obstacles = s.get_obstacles().unwrap();
    assert_eq!(obstacles.walls.len(), 360);
    assert_eq!(obstacles.cross.len(), 256);
}

#[test]
fn grouping_center_and_volume() {
    let g = Grouping {
        marks: vec![Position { x: 0, y: 0 }, Position { x: 3, y: 1 }, Position { x: -1, y: 5 }],
        color: Color::White,
    };
    assert_eq!(g.volume(), 3);
    // means 2/3 and 6/3, rounded toward zero
    assert_eq!(g.center(), Position { x: 0, y: 2 });
    let neg = Grouping { marks: vec![Position { x: -3, y: -3 }, Position { x: -2, y: -2 }], color: Color::Red };
    assert_eq!(neg.center(), Position { x: -2, y: -2 });
    let empty = Grouping { marks: vec![], color: Color::Red };
    assert_eq!(empty.center(), Position { x: 0, y: 0 });
}

#[test]
fn too_few_groups_means_no_obstacles() {
    let mut s = State::new(blank(10, 10), targets());
    s.scan_for_marks();
    s.group_marks();
    assert!(s.get_obstacles().is_none());
    assert!(s.get_balls().is_empty());
}
