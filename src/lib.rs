//! Turtle graphics: a pen that records a path of drawing operations, a replay of
//! that path as coloured line segments with integer pixel endpoints, and the
//! raster and animation logic that consumes those segments.
pub mod coord;
pub mod lsystem;
pub mod path;
pub mod player;
pub mod png;
pub mod raster;

pub use coord::Coord;
pub use lsystem::l_system_step;
pub use path::{Color, Line, Lines, Op, Path, Pen};
pub use player::{Command, Event, Key, Player, PlayerState};
pub use png::PngTurtle;
pub use raster::{draw_line_img, Canvas, RgbBuffer};
