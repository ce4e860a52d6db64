//! The board engine: coordinates, cells, ships, the board and its builder.

pub mod board;
pub mod builder;
pub mod cell;
pub mod fleet;
pub mod laws;
pub mod model;
pub mod notation;
pub mod placement;
pub mod point;
pub mod ui;

pub use board::Board;
pub use builder::BoardBuilder;
pub use cell::{CellContent, CellState};
pub use fleet::{Ship, ShipCounter, ShipCounterView, ShipDefinition, ShipView};
pub use model::{BoardView, HitDisplayDiff, HitError};
pub use notation::ParseError;
pub use placement::{BuilderView, PlacementExhausted, ShipAddError};
pub use point::Point;
