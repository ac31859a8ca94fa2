//! Small verified programs: pixel buffers, byte encodings, puzzles on
//! sequences and words, grids and graphs.

pub mod acquaint;
pub mod battle;
pub mod bytes;
pub mod csv_data;
pub mod graph;
pub mod gridsum;
pub mod morse;
pub mod morse_words;
pub mod necklace;
pub mod partition;
pub mod pixels;
pub mod rogue;
pub mod tree;
