//! Per-key minimum, mean and maximum over a buffer of `key;value` lines.
//!
//! A buffer is cut into chunks that begin and end where lines do
//! ([`dispenser`]). Each worker takes chunks until none is left and takes every
//! line of them into a table of its own ([`worker`], [`table`]), the bytes of
//! the keys into an arena of its own ([`arena`]). The tables are then folded
//! into one, which is read out in the order of the keys and written as text
//! ([`run`], [`report`]).
//!
//! Values are whole numbers of tenths ([`parse`], [`stats`]), so every sum is
//! exact and a result does not depend on how the lines were shared out. What a
//! table stands for, and the laws of aggregation, are in [`model`].

pub mod arena;
pub mod cursor;
pub mod dispenser;
pub mod inline_key;
pub mod key_order;
pub mod model;
pub mod parse;
pub mod report;
pub mod run;
pub mod scan;
pub mod stats;
pub mod table;
pub mod validation;
pub mod worker;
