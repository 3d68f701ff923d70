pub mod input;
pub mod laws;
pub mod merges;
pub mod metaroom;
pub mod model;

pub use input::first_pressed_numkey;
pub use merges::Merges;
pub use metaroom::{Metaroom, MetaroomID};
