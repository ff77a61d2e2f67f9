//! An execution engine for live, replayed, and batch multidimensional data,
//! with the decisions of everything around it: typed entity-aligned vectors,
//! stateful triggers, recordings and their exact replay.
//!
//! The library computes and decides; it performs no I/O. Numbers are held by
//! their bit patterns, and what rounds is done by an [`number::Arithmetic`]
//! that the caller supplies.
//!
//! - Calculation: [`engine`] evaluates a graph of nodes over one coherent
//!   generation of rows; [`cube`] holds its data, [`validation`], [`plan`],
//!   [`transform`] and [`evaluate`] its steps, [`rolling`] online moments for
//!   stateful owners.
//! - Shared vectors: [`layout`], [`catalog`], [`header`], [`records`],
//!   [`slice`] and [`epoch`] say what slice files hold and how they are read
//!   while they are written; [`publisher`] projects snapshots into them and
//!   [`vector`] reduces them.
//! - Circuits: [`circuit`] keeps frames in order, [`trigger`] detects
//!   persistent threshold crossings, [`frame`] states what its frames hold,
//!   [`digest`] identifies what a snapshot means, [`recording`], [`capture`]
//!   and [`replay`] record runs and compare them with a second one.
//! - Input: [`synthetic`], [`market`] and [`random`] make repeatable data.
//! - Foundations: [`number`], [`text`], [`names`], [`order`], [`table`],
//!   [`hash`], [`clock`], [`slice_error`]; [`reading`] says which real
//!   numbers the numbers and what is computed from them stand for.

pub mod capture;
pub mod catalog;
pub mod circuit;
pub mod clock;
pub mod cube;
pub mod digest;
pub mod engine;
pub mod epoch;
pub mod evaluate;
pub mod frame;
pub mod hash;
pub mod header;
pub mod layout;
pub mod market;
pub mod names;
pub mod number;
pub mod order;
pub mod plan;
pub mod publisher;
pub mod random;
pub mod reading;
pub mod recording;
pub mod records;
pub mod replay;
pub mod rolling;
pub mod slice;
pub mod slice_error;
pub mod synthetic;
pub mod table;
pub mod text;
pub mod transform;
pub mod trigger;
pub mod validation;
pub mod vector;
