use hw1::animal::{Animal, AnimalBehavior, Dog, Parrot};
use hw1::coin::{coin_value, Coin};
use hw1::pizza::{check_topping, Pizza, Toppings};
use hw1::rectangle::Rectangle;

#[test]
fn test_rect_struct() {
    let r = Rectangle {
        width: 50,
        height: 25,
    };
    assert_ne!(r.is_square(), true);
}

#[test]
fn test_square_struct() {
    let r = Rectangle {
        width: 25,
        height: 25,
    };
    assert_eq!(r.is_square(), true);
}

#[test]
fn test_area_struct() {
    let r = Rectangle {
        width: 4,
        height: 8,
    };
    assert_eq!(r.calc_area(), 32);
}

#[test]
fn area_of_the_largest_rectangle() {
    let r = Rectangle {
        width: u32::MAX,
        height: u32::MAX,
    };
    assert_eq!(r.calc_area(), 18446744065119617025);
}

#[test]
fn test_coins() {
    assert_eq!(coin_value(Coin::Nickel), 5);
    assert_eq!(coin_value(Coin::Dime), 10);
    assert_eq!(coin_value(Coin::Quarter), 25);
    assert_eq!(coin_value(Coin::Penny), 1);
}

#[test]
#[should_panic]
fn unwrap_bad_topping() {
    check_topping(&Toppings::Cheetos).unwrap();
}

#[test]
fn test_check_topping() {
    let sausage_ok = check_topping(&Toppings::Sausage).is_ok();
    let spinach_ok = check_topping(&Toppings::Spinach).is_ok();
    let cheetos_err = check_topping(&Toppings::Cheetos).is_err();
    assert!(sausage_ok);
    assert!(spinach_ok);
    assert!(cheetos_err);
}

#[test]
fn check_topping_on_every_topping() {
    assert!(check_topping(&Toppings::Onion).is_ok());
    assert!(check_topping(&Toppings::Pineapple).is_ok());
    assert!(check_topping(&Toppings::Oreos).is_err());
}

#[test]
fn test_add_good_toppings() {
    let mut za = Pizza::new();
    let sausage_ok = za.add_topping(Toppings::Sausage).is_ok();
    let spinach_ok = za.add_topping(Toppings::Spinach).is_ok();
    let cheetos_err = za.add_topping(Toppings::Cheetos).is_err();
    assert!(sausage_ok);
    assert!(spinach_ok);
    assert!(cheetos_err);
}

#[test]
fn test_has_topping() {
    let mut za = Pizza::new();
    assert!(za.add_topping(Toppings::Sausage).is_ok());
    assert!(za.add_topping(Toppings::Sausage).is_ok());
    assert_eq!(2, za.has_topping(&Toppings::Sausage).unwrap());
    assert_eq!(0, za.has_topping(&Toppings::Spinach).unwrap_or(0));
}

#[test]
fn topping_never_added_is_none() {
    let mut za = Pizza::new();
    assert_eq!(za.has_topping(&Toppings::Onion), None);
    assert_eq!(za.has_topping(&Toppings::Spinach), None);
    assert_eq!(za.has_topping(&Toppings::Oreos), None);
    assert!(za.add_topping(Toppings::Sausage).is_ok());
    assert!(za.add_topping(Toppings::Sausage).is_ok());
    assert_eq!(za.has_topping(&Toppings::Sausage), Some(2));
    assert_eq!(za.has_topping(&Toppings::Spinach), None);
    assert_eq!(za.has_topping(&Toppings::Sausage), Some(2));
}

#[test]
fn refused_topping_is_not_on_the_pizza() {
    let mut za = Pizza::new();
    assert!(za.add_topping(Toppings::Oreos).is_err());
    assert!(za.add_topping(Toppings::Onion).is_ok());
    assert!(za.add_topping(Toppings::Cheetos).is_err());
    assert_eq!(za.has_topping(&Toppings::Onion), Some(1));
    assert_eq!(za.has_topping(&Toppings::Oreos), None);
    assert_eq!(za.has_topping(&Toppings::Cheetos), None);
}

#[test]
fn test_generics_dog() {
    let dog = Animal {
        name: String::from("Lassie"),
        animal_type: Dog {
            breed: String::from("Collie"),
        },
        weight: 10,
    };

    assert_eq!(dog.animal_type.make_sound(), "Woof!");
}

#[test]
fn test_generics_bird() {
    let parrot = Animal {
        name: String::from("Polly"),
        animal_type: Parrot {
            color: String::from("Green"),
        },
        weight: 10,
    };

    assert_eq!(parrot.animal_type.make_sound(), "Polly wants a cracker!");
}
