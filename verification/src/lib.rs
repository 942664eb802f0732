//! Pairwise sequence alignment by dynamic programming: global
//! (Needleman-Wunsch) and local (Smith-Waterman) score tables that record
//! every tied recurrence branch, and a bounded enumeration of all optimal
//! alignments.
//!
//! `algorithms` builds the score table and the direction table, and
//! `reconstruction` walks the direction table backwards to list the optimal
//! alignments. `cli` reads a substitution matrix from text and carries out one
//! run from request to outcome, and `utils` writes a score table as text.
//!
//! The other modules state and prove what the tables and the listed
//! alignments are: `table_laws` and `alignment_laws` hold the laws of the two
//! tables and of the traceback, `walks` shows that the traceback follows each
//! walk through the direction table once, `maxima` characterises the cells
//! with the largest score, and `optimality` shows that the listed alignments
//! are the alignments that no other outscores.

pub mod algorithms;
pub mod alignment_laws;
pub mod cli;
pub mod error;
pub mod maxima;
pub mod optimality;
pub mod reconstruction;
pub mod table_laws;
pub mod text;
pub mod utils;
pub mod walks;
