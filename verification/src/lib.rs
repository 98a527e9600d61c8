//! Ball-collecting robot: the verified core of the vision, planning and
//! control logic. Camera, sockets, drawing, the floating-point ground
//! homography and the floating-point penalty tables live in the application
//! around this library.

pub mod geometry;
pub mod color;
pub mod frame;
pub mod vision;
pub mod grouping;
pub mod features;
pub mod border;
pub mod track;
pub mod route;
pub mod penalty;
pub mod path;
pub mod search;
pub mod search_shape;
pub mod control;
pub mod plot;
