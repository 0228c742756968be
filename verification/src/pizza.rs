//! A pizza and the toppings that may go on it.

use vstd::prelude::*;

verus! {

/// What someone might want on a pizza.
#[derive(Clone, Copy, PartialEq, Eq, Structural, Debug)]
pub enum Toppings {
    Onion,
    Sausage,
    Pineapple,
    Spinach,
    Cheetos,
    Oreos,
}

/// The toppings that belong on a pizza.
pub open spec fn is_valid_topping(topping: Toppings) -> bool {
    topping is Onion || topping is Pineapple || topping is Spinach || topping is Sausage
}

/// How often `topping` occurs in `toppings`.
pub open spec fn times_added(toppings: Seq<Toppings>, topping: Toppings) -> nat
    decreases toppings.len(),
{
    if toppings.len() == 0 {
        0
    } else {
        times_added(toppings.drop_last(), topping) + if toppings.last() == topping {
            1nat
        } else {
            0nat
        }
    }
}

/// Says that a topping does not belong on a pizza.
#[derive(Debug, Clone, Copy)]
pub struct PizzaError;

/// Accepts onion, pineapple, spinach and sausage, and refuses the rest.
pub fn check_topping(topping: &Toppings) -> (r: Result<(), PizzaError>)
    ensures
        r is Ok <==> is_valid_topping(*topping),
{
    match topping {
        Toppings::Onion => Ok(()),
        Toppings::Pineapple => Ok(()),
        Toppings::Spinach => Ok(()),
        Toppings::Sausage => Ok(()),
        _ => Err(PizzaError {  }),
    }
}

/// A pizza: the toppings that were added, in the order in which they came.
/// Only valid toppings get onto it.
pub struct Pizza {
    toppings: Vec<Toppings>,
}

impl View for Pizza {
    type V = Seq<Toppings>;

    closed spec fn view(&self) -> Seq<Toppings> {
        self.toppings@
    }
}

impl Pizza {
    #[verifier::type_invariant]
    spec fn only_valid(&self) -> bool {
        forall|i: int| 0 <= i < self.toppings@.len() ==> is_valid_topping(#[trigger] self.toppings@[i])
    }

    /// A pizza without toppings.
    pub fn new() -> (pizza: Pizza)
        ensures
            pizza@ == Seq::<Toppings>::empty(),
    {
        Pizza { toppings: Vec::new() }
    }

    /// Adds `topping` if it is valid; refuses it, and leaves the pizza as it
    /// is, if not.
    pub fn add_topping(&mut self, topping: Toppings) -> (r: Result<(), PizzaError>)
        ensures
            r is Ok <==> is_valid_topping(topping),
            final(self)@ == if is_valid_topping(topping) {
                old(self)@.push(topping)
            } else {
                old(self)@
            },
    {
        proof {
            use_type_invariant(&*self);
        }
        match check_topping(&topping) {
            Ok(()) => {
                let mut toppings: Vec<Toppings> = Vec::new();
                std::mem::swap(&mut toppings, &mut self.toppings);
                toppings.push(topping);
                self.toppings = toppings;
                Ok(())
            },
            Err(e) => Err(e),
        }
    }

    /// How many times `topping` was added; `None` if it was never added.
    pub fn has_topping(&self, topping: &Toppings) -> (r: Option<usize>)
        ensures
            r == if times_added(self@, *topping) == 0 {
                None
            } else {
                Some(times_added(self@, *topping) as usize)
            },
    {
        let mut count: usize = 0;
        let mut i: usize = 0;
        while i < self.toppings.len()
            invariant
                i <= self.toppings.len(),
                count <= i,
                count == times_added(self.toppings@.take(i as int), *topping),
            decreases self.toppings.len() - i,
        {
            assert(self.toppings@.take(i + 1).drop_last() =~= self.toppings@.take(i as int));
            if self.toppings[i] == *topping {
                count += 1;
            }
            i += 1;
        }
        assert(self.toppings@.take(i as int) =~= self.toppings@);
        if count == 0 {
            None
        } else {
            Some(count)
        }
    }
}

} // verus!
