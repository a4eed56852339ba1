//! A word-puzzle level tool: a letter grid with snapshot-based undo, an
//! exhaustive enumerator of word-spelling paths pruned by a prefix oracle,
//! a curated ledger of approved words, and a backtracking explorer that
//! reports full-clear solutions.

pub mod lex;
pub mod sorted;
pub mod live_list;
pub mod oracle;
pub mod solver;
pub mod levels;
