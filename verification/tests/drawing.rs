use track_analyzer::color::Rgb;
use track_analyzer::frame::Frame;
use track_analyzer::geometry::Position;
use track_analyzer::plot::{
    box_in_image, draw_detection, draw_pixel, draw_route, draw_route_map_debug, route_squares_in_range, square_in_range,
    MapColor,
};
use track_analyzer::route::{Node, Route};

fn rgb(r: u8, g: u8, b: u8) -> Rgb {
    Rgb { r, g, b }
}

fn blank(w: u32, h: u32) -> Frame {
    Frame::from_raw(w, h, vec![0u8; (w * h * 3) as usize]).unwrap()
}

const BLACK: Rgb = Rgb { r: 0, g: 0, b: 0 };

#[test]
fn map_colours() {
    assert_eq!(MapColor::Ball.rgb(), rgb(200, 150, 100));
    assert_eq!(MapColor::Car.rgb(), rgb(150, 200, 150));
    assert_eq!(MapColor::Obstacle.rgb(), rgb(100, 150, 200));
    assert_eq!(MapColor::Debug.rgb(), rgb(211, 176, 33));
    assert_eq!(MapColor::RouteOpen.rgb(), rgb(192, 132, 252));
    assert_eq!(MapColor::RouteClosed.rgb(), rgb(139, 92, 246));
    assert_eq!(MapColor::RouteChosen.rgb(), rgb(192, 170, 252));
}

#[test]
fn square_is_clipped_at_the_edge() {
    let mut f = blank(10, 10);
    draw_pixel(&mut f, &Position { x: 1, y: 1 }, 2, MapColor::Ball);
    // the square covers [-1, 3) x [-1, 3)
    assert_eq!(f.get_pixel(0, 0), MapColor::Ball.rgb());
    assert_eq!(f.get_pixel(2, 2), MapColor::Ball.rgb());
    assert_eq!(f.get_pixel(3, 2), BLACK);
    assert_eq!(f.get_pixel(2, 3), BLACK);
}

#[test]
fn route_drawing() {
    let car = Position { x: 10, y: 10 };
    let end = Position { x: 30, y: 10 };
    let mut r = Route::new();
    r.insert(car, Node { g_cost: 0, h_cost: 100, parent: None });
    r.insert(end, Node { g_cost: 5, h_cost: 1, parent: Some(car) });
    let mut f = blank(60, 40);
    assert!(draw_route(&mut f, &r));
    // the chosen chain over the large square at the route's end
    assert_eq!(f.get_pixel(10, 10), MapColor::RouteChosen.rgb());
    assert_eq!(f.get_pixel(16, 16), MapColor::RouteChosen.rgb());
    assert_eq!(f.get_pixel(17, 10), MapColor::RouteOpen.rgb());
    assert_eq!(f.get_pixel(49, 29), MapColor::RouteOpen.rgb());
    assert_eq!(f.get_pixel(50, 10), BLACK);
    // nothing below i32::MAX: nothing drawn
    let mut big = Route::new();
    big.insert(car, Node { g_cost: i32::MAX, h_cost: 0, parent: None });
    let mut g = blank(20, 20);
    assert!(!draw_route(&mut g, &big));
    assert_eq!(g.into_raw(), blank(20, 20).into_raw());
}

#[test]
fn searched_nodes_closed_over_open() {
    let mut open = Route::new();
    let mut closed = Route::new();
    open.insert(Position { x: 5, y: 5 }, Node { g_cost: 0, h_cost: 0, parent: None });
    closed.insert(Position { x: 8, y: 5 }, Node { g_cost: 0, h_cost: 0, parent: None });
    let mut f = blank(20, 20);
    draw_route_map_debug(&mut f, &open, &closed);
    assert_eq!(f.get_pixel(3, 5), MapColor::RouteOpen.rgb());
    assert_eq!(f.get_pixel(6, 5), MapColor::RouteClosed.rgb());
    assert_eq!(f.get_pixel(10, 7), MapColor::RouteClosed.rgb());
    assert_eq!(f.get_pixel(11, 5), BLACK);
}

#[test]
fn detection_box_outline() {
    let mut f = blank(10, 10);
    draw_detection(&mut f, 2, 3, 6, 7);
    let green = rgb(20, 200, 20);
    // corners and edges of [2, 6) x [3, 7)
    assert_eq!(f.get_pixel(2, 3), green);
    assert_eq!(f.get_pixel(5, 6), green);
    assert_eq!(f.get_pixel(4, 3), green);
    assert_eq!(f.get_pixel(2, 5), green);
    assert_eq!(f.get_pixel(5, 4), green);
    assert_eq!(f.get_pixel(3, 6), green);
    // inside the outline and outside the box nothing changes
    assert_eq!(f.get_pixel(3, 4), BLACK);
    assert_eq!(f.get_pixel(4, 5), BLACK);
    assert_eq!(f.get_pixel(6, 6), BLACK);
    assert_eq!(f.get_pixel(5, 7), BLACK);
    // an empty box draws nothing, wherever it is
    draw_detection(&mut f, 50, 50, 40, 60);
    assert_eq!(f.get_pixel(9, 9), BLACK);
}

#[test]
fn drawing_checks() {
    assert!(square_in_range(&Position { x: 0, y: 0 }, 40));
    assert!(!square_in_range(&Position { x: i32::MAX - 3, y: 0 }, 4));
    assert!(!square_in_range(&Position { x: 0, y: i32::MIN }, 1));
    let f = blank(10, 10);
    assert!(box_in_image(&f, 0, 0, 10, 10));
    assert!(!box_in_image(&f, 0, 0, 11, 10));
    assert!(!box_in_image(&f, -1, 0, 5, 5));
    assert!(box_in_image(&f, 50, 50, 40, 60));
    let mut r = Route::new();
    r.insert(Position { x: 5, y: 5 }, Node { g_cost: 0, h_cost: 0, parent: None });
    assert!(route_squares_in_range(&r, 3));
    r.insert(Position { x: i32::MIN + 1, y: 5 }, Node { g_cost: 0, h_cost: 0, parent: None });
    assert!(!route_squares_in_range(&r, 3));
}
