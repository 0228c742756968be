//! Coins and what they are worth.

use vstd::prelude::*;

verus! {

/// A coin.
#[derive(Clone, Copy, PartialEq, Eq, Structural, Debug)]
pub enum Coin {
    Penny,
    Nickel,
    Dime,
    Quarter,
}

/// The worth of `coin` in cents.
pub open spec fn cents(coin: Coin) -> u8 {
    match coin {
        Coin::Penny => 1,
        Coin::Nickel => 5,
        Coin::Dime => 10,
        Coin::Quarter => 25,
    }
}

/// The worth of `coin` in cents.
pub fn coin_value(coin: Coin) -> (value: u8)
    ensures
        value == cents(coin),
{
    match coin {
        Coin::Penny => 1,
        Coin::Nickel => 5,
        Coin::Dime => 10,
        Coin::Quarter => 25,
    }
}

} // verus!
