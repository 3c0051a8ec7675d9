//! Exact-cover solving with Knuth's Dancing Links (Algorithm X), applied to
//! 9x9 Sudoku.
//!
//! The core is a toroidal quadruply-linked node structure: an arena of nodes
//! addressed by small integer ids, where circular up/down rings form column
//! membership and circular left/right rings form row membership. Cover and
//! uncover are four-pointer splices that must reverse exactly under LIFO
//! usage; the search is a recursive minimum-column backtracking search.

pub mod dancing_link_x;
pub mod sudoku;
