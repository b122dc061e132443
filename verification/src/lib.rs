pub mod chord;
pub mod fretboard;
pub mod input;
pub mod interval;
pub mod note;
pub mod text;
pub mod tuning;
