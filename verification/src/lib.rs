//! Compiles a lambda-calculus-like term language into an interaction net
//! image: a flat memory of ports plus a list of active pairs (redexes).

pub mod alias;
pub mod alike;
pub mod close;
pub mod compile;
pub mod net;
pub mod parse;
pub mod polarity;
pub mod state;
pub mod table;
