use rdc::dcnumber::util::{carrying, CarryingIterator, DoubleEndedCarryingIterator};

fn add_carry(carry: bool, digit: u8) -> (bool, u8) {
    let sum = digit + if carry { 1 } else { 0 };
    (sum >= 10, sum % 10)
}

#[test]
fn carrying_iter_keeps_its_carry() {
    let mut it = carrying(vec![1u8, 2, 3]).with_carry(true);
    assert!(it.has_carry());
    assert_eq!((true, Some(1)), it.carrying_next());
    it.set_carry(false);
    assert_eq!((false, Some(3)), it.carrying_next_back());
    assert!(!it.has_back_carry());
    assert_eq!((false, Some(2)), it.carrying_next());
    assert_eq!((false, None), it.carrying_next());
}

#[test]
fn a_carry_left_at_the_end_gives_the_last_item() {
    let mut digits = carrying(vec![9u8, 9]).carrying_map(add_carry).with_carry(true).to_iter(1u8);
    assert_eq!(Some(0), digits.next());
    assert_eq!(Some(0), digits.next());
    assert_eq!(Some(1), digits.next());
    assert_eq!(None, digits.next());

    let mut digits = carrying(vec![9u8, 9, 1]).carrying_map(add_carry).with_carry(true).to_iter(1u8);
    assert_eq!(Some(0), digits.next());
    assert_eq!(Some(0), digits.next());
    assert_eq!(Some(2), digits.next());
    assert_eq!(None, digits.next());
}

#[test]
fn chains_pass_the_carry_on() {
    let mut chain = carrying(vec![9u8]).carrying_map(add_carry).with_carry(true)
        .carrying_chain(carrying(vec![5u8]).carrying_map(add_carry));
    assert_eq!((true, Some(0)), chain.carrying_next());
    assert_eq!((false, Some(6)), chain.carrying_next());
    assert_eq!((false, None), chain.carrying_next());
}

#[test]
fn iterating_from_the_back() {
    let mut digits = carrying(vec![1u8, 2]).with_back_carry(true).to_iter(7u8);
    assert_eq!(Some(2), digits.next_back());
    assert_eq!(Some(1), digits.next_back());
    assert_eq!(Some(7), digits.next_back());
    assert_eq!(None, digits.next_back());
}
