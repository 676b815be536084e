//! Exhaustive search for word rectangles: width-by-height letter grids whose
//! rows and columns all come from a wordlist.

pub mod echar;
pub mod charset;
pub mod matrix;
pub mod wordstuffs;
pub mod prefix_map;
pub mod search;
pub mod wordlist;
pub mod dim_col;
pub mod dim_row;
pub mod templates;
pub mod finder;
pub mod serial_prefix_map;
pub mod binary_searched_array_map;
pub mod bsam2;
