//! Crossword grids: parsing from text, the rotational symmetry rule, entry
//! numbering, export to the ipuz and Across Lite formats, and filling a grid
//! from a word list.

pub mod fill;
pub mod grid;
pub mod ipuz;
pub mod puz;
pub mod slots;
pub mod text;
pub mod words;

pub use fill::FillError;
pub use grid::{Cell, Grid, GridError, GridModel};
pub use puz::PuzError;
pub use slots::{Direction, Slot};
pub use words::WordList;
