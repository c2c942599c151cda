//! Line-level diff between two texts by longest common subsequence:
//! a bounds-checked memo-table container (`grid`) and the table
//! construction and backtracking walk that produce an ordered sequence
//! of added / removed / unchanged line annotations (`diff`).

pub mod diff;
pub mod grid;
