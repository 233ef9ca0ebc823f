use kitties::dna::KittySexual;
use kitties::error::Error;
use kitties::linked_item::LinkedItem;
use kitties::registry::Module;
use kitties::registry::Payment;

const A: u64 = 1;
const B: u64 = 2;
const C: u64 = 3;

const MALE: [u8; 16] = [0u8; 16];
const FEMALE: [u8; 16] = [1, 0, 0, 0, 0, 0, 0, 0, 0, 0, 0, 0, 0, 0, 0, 0];

#[test]
fn it_works_for_transfer() {
    let mut kitties = Module::new();
    assert!(kitties.create(1, MALE).is_ok());
    assert_eq!(kitties.kitties_count(), 1);
    assert_eq!(kitties.owned_kitties(1)[0], 0);
    assert_eq!(kitties.owned_kitties(1).len(), 1);
    assert!(kitties.transfer(1, 2, 0).is_ok());
    assert_eq!(kitties.owned_kitties(1).len(), 0);
    assert_eq!(kitties.owned_kitties(2).len(), 1);
    assert_eq!(kitties.owned_kitties(2)[0], 0);
}

#[test]
fn it_works_for_default_value() {
    let mut kitties = Module::new();
    assert!(kitties.create(1, MALE).is_ok());
    assert_eq!(kitties.kitties_count(), 1);
    let id = 0;
    let kitty = kitties.kitty(id).unwrap();
    let o = kitty.owner;
    assert_eq!(kitties.owned_kitties(o)[0], id);
    assert_eq!(kitty.id, id);
    assert_eq!(kitty.generation, 0);
    assert_eq!(kitty.price.unwrap_or(0), 0);
}

#[test]
fn new_registry_is_empty() {
    let kitties = Module::new();
    assert_eq!(kitties.kitties_count(), 0);
    assert_eq!(kitties.next_kitty_id(), Ok(0));
    assert_eq!(kitties.kitty(0), None);
    assert_eq!(kitties.find_kitty(0), Err(Error::EntityNotFound));
    assert_eq!(kitties.owned_kitties(A), Vec::<u64>::new());
    assert_eq!(kitties.kitty_items(A, None), None);
}

#[test]
fn create_makes_a_founder() {
    let mut kitties = Module::new();
    let dna = [9u8, 8, 7, 6, 5, 4, 3, 2, 1, 0, 1, 2, 3, 4, 5, 6];
    assert_eq!(kitties.create(A, dna), Ok(0));
    let kitty = kitties.kitty(0).unwrap();
    assert_eq!(kitty.id, 0);
    assert_eq!(kitty.dna, dna);
    assert_eq!(kitty.generation, 0);
    assert_eq!(kitty.parents, None);
    assert_eq!(kitty.owner, A);
    assert_eq!(kitty.price, None);
    let ones: u32 = dna.iter().map(|b| b.count_ones()).sum();
    let expected = if ones % 2 == 0 { KittySexual::Male } else { KittySexual::Female };
    assert_eq!(kitty.sexual, expected);
    assert_eq!(kitties.find_kitty(0), Ok(kitty));
    assert_eq!(kitties.kitties_count(), 1);
    assert_eq!(kitties.next_kitty_id(), Ok(1));
}

#[test]
fn create_hands_out_growing_ids() {
    let mut kitties = Module::new();
    for expected in 0..20u64 {
        assert_eq!(kitties.next_kitty_id(), Ok(expected));
        assert_eq!(kitties.create(expected % 3, MALE), Ok(expected));
    }
    assert_eq!(kitties.owned_kitties(0), vec![0, 3, 6, 9, 12, 15, 18]);
    assert_eq!(kitties.owned_kitties(1), vec![1, 4, 7, 10, 13, 16, 19]);
    assert_eq!(kitties.owned_kitties(2), vec![2, 5, 8, 11, 14, 17]);
}

#[test]
fn end_to_end_create_transfer_breed() {
    let mut kitties = Module::new();
    assert_eq!(kitties.create(A, MALE), Ok(0));
    let first = kitties.kitty(0).unwrap();
    assert_eq!(first.generation, 0);
    assert_eq!(first.owner, A);
    assert_eq!(kitties.owned_kitties(A), vec![0]);

    assert_eq!(kitties.create(B, FEMALE), Ok(1));
    assert_eq!(kitties.kitty(1).unwrap().owner, B);

    assert_eq!(kitties.transfer(A, B, 0), Ok(()));
    assert_eq!(kitties.owned_kitties(A), Vec::<u64>::new());
    assert_eq!(kitties.owned_kitties(B), vec![1, 0]);
    assert_eq!(kitties.kitty(0).unwrap().owner, B);

    let selector = [0b10101010u8; 16];
    assert_eq!(kitties.breed(B, 1, 0, selector), Ok(2));
    let child = kitties.kitty(2).unwrap();
    assert_eq!(child.id, 2);
    assert_eq!(child.generation, 1);
    assert_eq!(child.parents, Some((1, 0)));
    assert_eq!(child.owner, B);
    assert_eq!(child.price, None);
    assert_eq!(kitties.owned_kitties(B), vec![1, 0, 2]);
    assert_eq!(kitties.kitties_count(), 3);
}

#[test]
fn child_dna_is_the_combination_of_its_parents() {
    let mut kitties = Module::new();
    let mut father = [0u8; 16];
    let mut mother = [0u8; 16];
    let mut selector = [0u8; 16];
    for i in 0..16 {
        father[i] = 0b11110000;
        mother[i] = 0b11001100;
        selector[i] = 0b10101010;
    }
    mother[15] = 0b11001101;
    assert_eq!(kitties.create(A, father), Ok(0));
    assert_eq!(kitties.create(A, mother), Ok(1));
    assert_ne!(kitties.kitty(0).unwrap().sexual, kitties.kitty(1).unwrap().sexual);
    assert_eq!(kitties.breed(A, 0, 1, selector), Ok(2));
    let child = kitties.kitty(2).unwrap();
    for i in 0..15 {
        assert_eq!(child.dna[i], 0b11100100);
    }
    assert_eq!(child.dna[15], 0b11100101);
    assert_eq!(kitties.breed(A, 0, 1, [0xFF; 16]), Ok(3));
    assert_eq!(kitties.kitty(3).unwrap().dna, father);
    assert_eq!(kitties.breed(A, 0, 1, [0x00; 16]), Ok(4));
    assert_eq!(kitties.kitty(4).unwrap().dna, mother);
}

#[test]
fn generation_is_one_more_than_the_later_parent() {
    let mut kitties = Module::new();
    assert_eq!(kitties.create(A, MALE), Ok(0));
    assert_eq!(kitties.create(A, FEMALE), Ok(1));
    assert_eq!(kitties.breed(A, 0, 1, [0xFF; 16]), Ok(2));
    assert_eq!(kitties.kitty(2).unwrap().generation, 1);
    assert_eq!(kitties.kitty(2).unwrap().sexual, KittySexual::Male);
    assert_eq!(kitties.breed(A, 2, 1, [0xFF; 16]), Ok(3));
    assert_eq!(kitties.kitty(3).unwrap().generation, 2);
    assert_eq!(kitties.breed(A, 1, 3, [0x00; 16]), Ok(4));
    assert_eq!(kitties.kitty(4).unwrap().generation, 3);
    assert_eq!(kitties.breed(A, 0, 1, [0x00; 16]), Ok(5));
    assert_eq!(kitties.kitty(5).unwrap().generation, 1);
}

#[test]
fn breed_rejects_missing_parents() {
    let mut kitties = Module::new();
    assert_eq!(kitties.create(A, MALE), Ok(0));
    assert_eq!(kitties.breed(A, 0, 1, MALE), Err(Error::EntityNotFound));
    assert_eq!(kitties.breed(A, 1, 0, MALE), Err(Error::EntityNotFound));
    assert_eq!(kitties.breed(A, 5, 5, MALE), Err(Error::EntityNotFound));
    assert_eq!(kitties.kitties_count(), 1);
}

#[test]
fn breed_rejects_identical_parents_whoever_asks() {
    let mut kitties = Module::new();
    assert_eq!(kitties.create(A, MALE), Ok(0));
    assert_eq!(kitties.breed(A, 0, 0, MALE), Err(Error::SameParent));
    assert_eq!(kitties.breed(B, 0, 0, MALE), Err(Error::SameParent));
    assert_eq!(kitties.kitties_count(), 1);
    assert_eq!(kitties.owned_kitties(A), vec![0]);
}

#[test]
fn breed_rejects_parents_of_others() {
    let mut kitties = Module::new();
    assert_eq!(kitties.create(A, MALE), Ok(0));
    assert_eq!(kitties.create(B, FEMALE), Ok(1));
    assert_eq!(kitties.breed(A, 0, 1, MALE), Err(Error::NotOwner));
    assert_eq!(kitties.breed(B, 0, 1, MALE), Err(Error::NotOwner));
    assert_eq!(kitties.breed(C, 0, 1, MALE), Err(Error::NotOwner));
    assert_eq!(kitties.kitties_count(), 2);
}

#[test]
fn breed_rejects_parents_of_one_sex() {
    let mut kitties = Module::new();
    assert_eq!(kitties.create(A, MALE), Ok(0));
    assert_eq!(kitties.create(A, MALE), Ok(1));
    assert_eq!(kitties.create(A, FEMALE), Ok(2));
    assert_eq!(kitties.create(A, FEMALE), Ok(3));
    assert_eq!(kitties.breed(A, 0, 1, MALE), Err(Error::CategoryMismatch));
    assert_eq!(kitties.breed(A, 2, 3, MALE), Err(Error::CategoryMismatch));
    assert_eq!(kitties.breed(A, 2, 0, MALE), Ok(4));
    assert_eq!(kitties.breed(A, 0, 2, MALE), Ok(5));
}

#[test]
fn transfer_rejections_leave_everything_in_place() {
    let mut kitties = Module::new();
    assert_eq!(kitties.create(A, MALE), Ok(0));
    assert_eq!(kitties.transfer(A, B, 1), Err(Error::EntityNotFound));
    assert_eq!(kitties.transfer(B, C, 0), Err(Error::NotOwner));
    assert_eq!(kitties.transfer(B, B, 0), Err(Error::NotOwner));
    assert_eq!(kitties.transfer(A, A, 0), Err(Error::SelfTransfer));
    assert_eq!(kitties.sell(A, 0, 10), Ok(()));
    assert_eq!(kitties.transfer(A, B, 0), Err(Error::OnSale));
    assert_eq!(kitties.transfer(A, A, 0), Err(Error::SelfTransfer));
    assert_eq!(kitties.owned_kitties(A), vec![0]);
    assert_eq!(kitties.owned_kitties(B), Vec::<u64>::new());
    assert_eq!(kitties.kitty(0).unwrap().owner, A);
    assert_eq!(kitties.cancel_sell(A, 0), Ok(()));
    assert_eq!(kitties.transfer(A, B, 0), Ok(()));
}

#[test]
fn transfer_moves_the_kitty_between_the_rings() {
    let mut kitties = Module::new();
    for _ in 0..4 {
        assert!(kitties.create(A, MALE).is_ok());
    }
    assert_eq!(kitties.create(B, MALE), Ok(4));
    assert_eq!(kitties.transfer(A, B, 1), Ok(()));
    assert_eq!(kitties.owned_kitties(A), vec![0, 2, 3]);
    assert_eq!(kitties.owned_kitties(B), vec![4, 1]);
    assert!(!kitties.owned_kitties(A).contains(&1));
    assert!(kitties.owned_kitties(B).contains(&1));
    assert_eq!(kitties.kitty(1).unwrap().owner, B);
    assert_eq!(kitties.kitty_items(A, Some(1)), None);
    assert_eq!(kitties.kitty_items(A, Some(0)), Some(LinkedItem { prev: None, next: Some(2) }));
    assert_eq!(kitties.kitty_items(B, Some(1)), Some(LinkedItem { prev: Some(4), next: None }));
    assert_eq!(kitties.kitty_items(B, None), Some(LinkedItem { prev: Some(1), next: Some(4) }));
}

#[test]
fn owner_who_gave_everything_away_can_receive_again() {
    let mut kitties = Module::new();
    assert_eq!(kitties.create(A, MALE), Ok(0));
    assert_eq!(kitties.transfer(A, B, 0), Ok(()));
    assert_eq!(kitties.kitty_items(A, None), Some(LinkedItem { prev: None, next: None }));
    assert_eq!(kitties.owned_kitties(A), Vec::<u64>::new());
    assert_eq!(kitties.transfer(B, A, 0), Ok(()));
    assert_eq!(kitties.owned_kitties(A), vec![0]);
    assert_eq!(kitties.owned_kitties(B), Vec::<u64>::new());
    assert_eq!(kitties.create(A, FEMALE), Ok(1));
    assert_eq!(kitties.owned_kitties(A), vec![0, 1]);
}

#[test]
fn sell_and_cancel_sell_set_and_clear_the_price() {
    let mut kitties = Module::new();
    assert_eq!(kitties.create(A, MALE), Ok(0));
    assert_eq!(kitties.sell(A, 1, 5), Err(Error::EntityNotFound));
    assert_eq!(kitties.sell(B, 0, 5), Err(Error::NotOwner));
    assert_eq!(kitties.cancel_sell(A, 1), Err(Error::EntityNotFound));
    assert_eq!(kitties.cancel_sell(B, 0), Err(Error::NotOwner));
    assert_eq!(kitties.cancel_sell(A, 0), Err(Error::NotOnSale));
    assert_eq!(kitties.sell(A, 0, 5), Ok(()));
    assert_eq!(kitties.kitty(0).unwrap().price, Some(5));
    assert!(kitties.kitty(0).unwrap().is_on_sale());
    assert_eq!(kitties.sell(A, 0, 6), Err(Error::AlreadyOnSale));
    assert_eq!(kitties.kitty(0).unwrap().price, Some(5));
    assert_eq!(kitties.cancel_sell(A, 0), Ok(()));
    assert_eq!(kitties.kitty(0).unwrap().price, None);
    assert_eq!(kitties.sell(A, 0, 0), Ok(()));
    assert_eq!(kitties.kitty(0).unwrap().price, Some(0));
    assert_eq!(kitties.owned_kitties(A), vec![0]);
}

#[test]
fn payment_due_names_buyer_owner_and_asked_price() {
    let mut kitties = Module::new();
    assert_eq!(kitties.create(A, MALE), Ok(0));
    assert_eq!(kitties.payment_due(B, 1, 100), Err(Error::EntityNotFound));
    assert_eq!(kitties.payment_due(B, 0, 100), Err(Error::NotOnSale));
    assert_eq!(kitties.sell(A, 0, 40), Ok(()));
    assert_eq!(kitties.payment_due(B, 0, 39), Err(Error::BidTooLow));
    assert_eq!(kitties.payment_due(B, 0, 40), Ok(Payment { from: B, to: A, amount: 40 }));
    assert_eq!(kitties.payment_due(B, 0, 100), Ok(Payment { from: B, to: A, amount: 40 }));
}

#[test]
fn buy_moves_the_kitty_and_clears_the_price() {
    let mut kitties = Module::new();
    assert_eq!(kitties.create(A, MALE), Ok(0));
    assert_eq!(kitties.create(A, FEMALE), Ok(1));
    assert_eq!(kitties.create(B, FEMALE), Ok(2));
    assert_eq!(kitties.sell(A, 0, 40), Ok(()));
    assert_eq!(kitties.buy(B, 0, 50, true), Ok(()));
    let kitty = kitties.kitty(0).unwrap();
    assert_eq!(kitty.owner, B);
    assert_eq!(kitty.price, None);
    assert_eq!(kitties.owned_kitties(A), vec![1]);
    assert_eq!(kitties.owned_kitties(B), vec![2, 0]);
    assert_eq!(kitties.buy(A, 0, 50, true), Err(Error::NotOnSale));
}

#[test]
fn buy_rejections_leave_everything_in_place() {
    let mut kitties = Module::new();
    assert_eq!(kitties.create(A, MALE), Ok(0));
    assert_eq!(kitties.buy(B, 1, 50, true), Err(Error::EntityNotFound));
    assert_eq!(kitties.buy(B, 0, 50, true), Err(Error::NotOnSale));
    assert_eq!(kitties.sell(A, 0, 40), Ok(()));
    assert_eq!(kitties.buy(B, 0, 39, true), Err(Error::BidTooLow));
    assert_eq!(kitties.buy(B, 0, 39, false), Err(Error::BidTooLow));
    assert_eq!(kitties.buy(B, 0, 40, false), Err(Error::PaymentFailed));
    let kitty = kitties.kitty(0).unwrap();
    assert_eq!(kitty.owner, A);
    assert_eq!(kitty.price, Some(40));
    assert_eq!(kitties.owned_kitties(A), vec![0]);
    assert_eq!(kitties.owned_kitties(B), Vec::<u64>::new());
}

#[test]
fn owner_buying_its_own_kitty_moves_it_to_the_end() {
    let mut kitties = Module::new();
    assert_eq!(kitties.create(A, MALE), Ok(0));
    assert_eq!(kitties.create(A, MALE), Ok(1));
    assert_eq!(kitties.sell(A, 0, 7), Ok(()));
    assert_eq!(kitties.payment_due(A, 0, 7), Ok(Payment { from: A, to: A, amount: 7 }));
    assert_eq!(kitties.buy(A, 0, 7, true), Ok(()));
    assert_eq!(kitties.owned_kitties(A), vec![1, 0]);
    assert_eq!(kitties.kitty(0).unwrap().price, None);
    assert_eq!(kitties.kitty(0).unwrap().owner, A);
}

#[test]
fn every_kitty_is_listed_under_its_owner_and_nowhere_else() {
    let mut kitties = Module::new();
    let mut seed: u64 = 42;
    for step in 0..300u64 {
        seed = seed.wrapping_mul(6364136223846793005).wrapping_add(1442695040888963407);
        let who = (seed >> 40) % 4;
        let to = (seed >> 20) % 4;
        let count = kitties.kitties_count();
        if step % 3 == 0 || count == 0 {
            let dna = if seed & 1 == 0 { MALE } else { FEMALE };
            assert_eq!(kitties.create(who, dna), Ok(count));
        } else {
            let id = (seed >> 8) % count;
            let owner = kitties.kitty(id).unwrap().owner;
            let expected = if owner != who {
                Err(Error::NotOwner)
            } else if who == to {
                Err(Error::SelfTransfer)
            } else {
                Ok(())
            };
            assert_eq!(kitties.transfer(who, to, id), expected);
        }
    }
    let count = kitties.kitties_count();
    let mut seen = vec![0u32; count as usize];
    for owner in 0..4u64 {
        for id in kitties.owned_kitties(owner) {
            assert_eq!(kitties.kitty(id).unwrap().owner, owner);
            seen[id as usize] += 1;
        }
    }
    assert!(seen.iter().all(|n| *n == 1));
}
