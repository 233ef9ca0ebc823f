use kitties::dna::KittySexual;
use kitties::store::Kitties;
use kitties::store::Kitty;

#[test]
fn new_kitty_is_not_for_sale_and_has_the_sex_of_its_dna() {
    let mut dna = [0u8; 16];
    let male = Kitty::new(4, 9, None, dna, 0);
    assert_eq!(male.owner, 4);
    assert_eq!(male.id, 9);
    assert_eq!(male.parents, None);
    assert_eq!(male.generation, 0);
    assert_eq!(male.price, None);
    assert_eq!(male.sexual, KittySexual::Male);
    assert!(!male.is_on_sale());
    dna[3] = 0b0000_0100;
    let female = Kitty::new(4, 10, Some((1, 2)), dna, 3);
    assert_eq!(female.sexual, KittySexual::Female);
    assert_eq!(female.parents, Some((1, 2)));
    assert_eq!(female.generation, 3);
    assert_eq!(female.dna, dna);
}

#[test]
fn is_on_sale_follows_the_price() {
    let mut kitty = Kitty::new(1, 0, None, [0u8; 16], 0);
    assert!(!kitty.is_on_sale());
    kitty.price = Some(0);
    assert!(kitty.is_on_sale());
    kitty.price = Some(77);
    assert!(kitty.is_on_sale());
}

#[test]
fn store_gets_what_was_inserted() {
    let mut store = Kitties::new();
    assert_eq!(store.get(0), None);
    let first = Kitty::new(1, 0, None, [1u8; 16], 0);
    let second = Kitty::new(2, 5, None, [2u8; 16], 0);
    store.insert(0, first);
    store.insert(5, second);
    assert_eq!(store.get(0), Some(first));
    assert_eq!(store.get(5), Some(second));
    assert_eq!(store.get(1), None);
    store.insert(0, second);
    assert_eq!(store.get(0), Some(second));
}

#[test]
fn mutate_changes_a_kitty_in_place() {
    let mut store = Kitties::new();
    let kitty = Kitty::new(1, 0, None, [1u8; 16], 0);
    store.insert(0, kitty);
    store.mutate(0, |mut k: Kitty| {
        k.owner = 8;
        k.price = Some(3);
        k
    });
    let changed = store.get(0).unwrap();
    assert_eq!(changed.owner, 8);
    assert_eq!(changed.price, Some(3));
    assert_eq!(changed.dna, kitty.dna);
    assert_eq!(changed.id, 0);
}

#[test]
fn mutate_of_a_missing_kitty_does_nothing() {
    let mut store = Kitties::new();
    store.insert(0, Kitty::new(1, 0, None, [1u8; 16], 0));
    store.mutate(1, |mut k: Kitty| {
        k.owner = 8;
        k
    });
    assert_eq!(store.get(1), None);
    assert_eq!(store.get(0).unwrap().owner, 1);
}
