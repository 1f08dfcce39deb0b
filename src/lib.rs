//! Five small text puzzles, each read from its input and solved with a
//! verified contract: list reconciliation (`historian`), report safety
//! (`reports`), a memory scanner (`memory`), word search on a grid
//! (`word_search`) and page ordering under precedence rules (`page_order`).
//! `text` holds the character-level reading that they share.
pub mod historian;
pub mod memory;
pub mod page_order;
pub mod reports;
pub mod text;
pub mod word_search;
