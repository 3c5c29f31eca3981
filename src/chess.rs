pub mod board;
pub mod moves;
pub mod notation;
pub mod position;
pub mod search;

pub use board::{decode_position, encode_position, Pos};
pub use notation::ParseError;
pub use position::{Color, State};
pub use search::TraversalResult;
