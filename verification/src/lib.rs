//! Small exercises in arithmetic, data modelling and serialization, each
//! function with a contract that Verus proves.

pub mod animal;
pub mod basic;
pub mod cbor;
pub mod coin;
pub mod error;
pub mod hashmap;
pub mod json;
pub mod object;
pub mod pizza;
pub mod rectangle;
pub mod solution;
pub mod structure;
pub mod text;
pub mod vector;
pub mod wire;
