//! Matching of partially specified Puyo boards against a database of known
//! boards, with a logic engine doing the search.
//!
//! A board is a stack of up to thirteen rows of six cells. Known boards are
//! written as facts and loaded into the engine. A pattern, a board text in
//! which some cells are left open, is compiled into a query; the engine finds
//! the facts that the query matches; and each solution is decoded back into
//! the board that it stands for.
//!
//! - `puyo`, `row`, `board`: the cells, rows and boards, and how they are
//!   written and read.
//! - `query`: compiling a pattern.
//! - `decode`: decoding solutions.
//! - `engine`: loading boards into the engine and running queries against it.
//! - `sheet`: reading boards and patterns off the cells of a sheet.
//! - `text`: helpers on characters and texts.

pub mod board;
pub mod decode;
pub mod engine;
pub mod puyo;
pub mod query;
pub mod row;
pub mod sheet;
pub mod text;
