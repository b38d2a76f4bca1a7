//! Word magic squares: rectangular grids of letters in which every row and
//! every column, read left-to-right or top-to-bottom, is a dictionary word.
//!
//! The crate has two parts. [`dictionary::Dictionary`] is an immutable word
//! set offering exact membership and wildcard-template search, used to prune
//! partial rows and columns. [`square::MagicSquare`] holds a mutable letter
//! grid plus an editable mask and performs the recursive backtracking fill,
//! consulting the dictionary for the validity of every row and column at
//! every step. [`text`] holds the character-level machinery both share: case
//! folding and wildcard-template matching.

pub mod dictionary;
pub mod square;
pub mod text;
