//! Kitties and the store that holds them by id.

use crate::dna::dna_value;
use crate::dna::le_value;
use crate::dna::sexual_from_dna;
use crate::dna::sexual_of;
use crate::dna::KittySexual;
use std::collections::HashMap;
use vstd::prelude::*;

verus! {

/// An account that can own kitties.
pub type AccountId = u64;

/// The id of a kitty.
pub type KittyId = u64;

/// An amount of money.
pub type Balance = u64;

/// A kitty.
#[derive(Clone, Copy, Debug, PartialEq, Eq)]
pub struct Kitty {
    /// The id under which the kitty is stored.
    pub id: KittyId,
    /// The two kitties it was bred from; a founder has none.
    pub parents: Option<(KittyId, KittyId)>,
    /// Its sex, which its payload decides.
    pub sexual: KittySexual,
    /// Its genetic payload.
    pub dna: [u8; 16],
    /// How many breedings separate it from a founder.
    pub generation: u64,
    /// The account that owns it.
    pub owner: AccountId,
    /// The price asked for it while it is for sale.
    pub price: Option<Balance>,
}

impl Kitty {
    /// The sex that the kitty shows is the one its payload stands for.
    pub open spec fn well_formed(&self) -> bool {
        self.sexual == sexual_of(le_value(self.dna@) as u128)
    }

    /// The kitty that [`Kitty::new`] makes.
    pub open spec fn made(
        owner: AccountId,
        id: KittyId,
        parents: Option<(KittyId, KittyId)>,
        dna: [u8; 16],
        generation: u64,
    ) -> Kitty {
        Kitty {
            id,
            parents,
            sexual: sexual_of(le_value(dna@) as u128),
            dna,
            generation,
            owner,
            price: None,
        }
    }

    /// A kitty that is not for sale, with the sex that `dna` stands for.
    pub fn new(
        owner: AccountId,
        id: KittyId,
        parents: Option<(KittyId, KittyId)>,
        dna: [u8; 16],
        generation: u64,
    ) -> (r: Kitty)
        ensures
            r == Kitty::made(owner, id, parents, dna, generation),
            r.well_formed(),
    {
        let sexual = sexual_from_dna(dna_value(&dna));
        Kitty { id, parents, sexual, dna, generation, owner, price: None }
    }

    /// Whether a price is asked for the kitty.
    pub fn is_on_sale(self) -> (r: bool)
        ensures
            r == self.price is Some,
    {
        self.price.is_some()
    }
}

/// The kitties by id. Its view is the map from id to kitty.
pub struct Kitties {
    map: HashMap<u64, Kitty>,
}

impl View for Kitties {
    type V = Map<KittyId, Kitty>;

    closed spec fn view(&self) -> Map<KittyId, Kitty> {
        self.map@
    }
}

impl Kitties {
    /// A store without kitties.
    pub fn new() -> (r: Self)
        ensures
            r@ == Map::<KittyId, Kitty>::empty(),
    {
        Kitties { map: HashMap::new() }
    }

    /// The kitty stored under `id`, if there is one.
    pub fn get(&self, id: KittyId) -> (r: Option<Kitty>)
        ensures
            r == if self@.contains_key(id) {
                Some(self@[id])
            } else {
                None
            },
    {
        match self.map.get(&id) {
            Some(kitty) => Some(*kitty),
            None => None,
        }
    }

    /// Stores `kitty` under `id`, in place of what was there.
    pub fn insert(&mut self, id: KittyId, kitty: Kitty)
        ensures
            final(self)@ == old(self)@.insert(id, kitty),
    {
        self.map.insert(id, kitty);
    }

    /// Replaces the kitty stored under `id` by what `f` makes of it. Does
    /// nothing where no kitty is stored there.
    pub fn mutate<F: FnOnce(Kitty) -> Kitty>(&mut self, id: KittyId, f: F)
        requires
            old(self)@.contains_key(id) ==> f.requires((old(self)@[id],)),
        ensures
            !old(self)@.contains_key(id) ==> final(self)@ == old(self)@,
            old(self)@.contains_key(id) ==> f.ensures((old(self)@[id],), final(self)@[id])
                && final(self)@ == old(self)@.insert(id, final(self)@[id]),
    {
        let found = self.get(id);
        match found {
            Some(kitty) => {
                let changed = f(kitty);
                self.map.insert(id, changed);
            },
            None => {},
        }
    }
}

} // verus!
