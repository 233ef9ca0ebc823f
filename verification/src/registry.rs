//! The registry of kitties and the operations on it.
//!
//! [`Registry`] is the registry as a mathematical value, with every
//! operation as a function from one registry to the next. [`Module`] is the
//! registry that runs: an id allocator, a store of kitties and the index of
//! each owner's kitties, kept in step with one another.

use crate::allocator::issued;
use crate::allocator::IdAllocator;
use crate::dna::combined;
use crate::dna::combined_dna;
use crate::error::Error;
use crate::linked_item::appended;
use crate::linked_item::lemma_push_fresh;
use crate::linked_item::lemma_without;
use crate::linked_item::removed;
use crate::linked_item::without;
use crate::linked_item::LinkedItem;
use crate::linked_item::LinkedList;
use crate::store::AccountId;
use crate::store::Balance;
use crate::store::Kitties;
use crate::store::Kitty;
use crate::store::KittyId;
use vstd::prelude::*;

verus! {

/// A payment that a purchase calls for.
#[derive(Clone, Copy, Debug, PartialEq, Eq, Structural)]
pub struct Payment {
    /// The account that pays: the buyer.
    pub from: AccountId,
    /// The account that is paid: the owner of the kitty.
    pub to: AccountId,
    /// The price that the owner asked.
    pub amount: Balance,
}

/// The larger of two generations.
pub open spec fn later(a: u64, b: u64) -> u64 {
    if a >= b {
        a
    } else {
        b
    }
}

/// The lists of all owners after `id` left the list of `from`, where the gap
/// closes, and came last in the list of `to`.
pub open spec fn relinked(
    owned: Map<AccountId, Seq<KittyId>>,
    from: AccountId,
    to: AccountId,
    id: KittyId,
) -> Map<AccountId, Seq<KittyId>> {
    let left = owned.insert(from, without(owned[from], id));
    left.insert(to, left[to].push(id))
}

/// The registry as a value.
pub struct Registry {
    /// The id that the next kitty gets; ids below it are taken.
    pub next_kitty_id: KittyId,
    /// The kitties by id.
    pub kitties: Map<KittyId, Kitty>,
    /// For every account the ids of its kitties, in the order in which it
    /// got them.
    pub owned: Map<AccountId, Seq<KittyId>>,
}

impl Registry {
    /// The registry before the first kitty.
    pub open spec fn empty() -> Registry {
        Registry {
            next_kitty_id: 0,
            kitties: Map::empty(),
            owned: Map::total(|owner: AccountId| Seq::<KittyId>::empty()),
        }
    }

    /// The kitty stored under `id` descends from what its record says.
    pub open spec fn lineage_ok(self, id: KittyId) -> bool {
        let kitty = self.kitties[id];
        match kitty.parents {
            None => kitty.generation == 0,
            Some((a, b)) => {
                &&& a != b
                &&& a < id
                &&& b < id
                &&& kitty.generation == later(self.kitties[a].generation, self.kitties[b].generation)
                    + 1
            },
        }
    }

    /// Store, index and allocator agree: the ids in use are those below the
    /// next id, and a kitty is listed once, under its owner and nowhere
    /// else.
    pub open spec fn wf(self) -> bool {
        &&& forall|owner: AccountId| #[trigger] self.owned.contains_key(owner)
        &&& forall|id: KittyId| #[trigger] self.kitties.contains_key(id) <==> id < self.next_kitty_id
        &&& forall|id: KittyId| #[trigger]
            self.kitties.contains_key(id) ==> {
                &&& self.kitties[id].id == id
                &&& self.kitties[id].well_formed()
                &&& self.owned[self.kitties[id].owner].contains(id)
                &&& self.lineage_ok(id)
            }
        &&& forall|owner: AccountId| #[trigger] self.owned[owner].no_duplicates()
        &&& forall|owner: AccountId, id: KittyId| #[trigger]
            self.owned[owner].contains(id) ==> self.kitties.contains_key(id)
                && self.kitties[id].owner == owner
    }

    /// The registry with the kitty `kitty` added under the next id and
    /// listed last under its owner.
    pub open spec fn minted(self, kitty: Kitty) -> Registry {
        Registry {
            next_kitty_id: (self.next_kitty_id + 1) as u64,
            kitties: self.kitties.insert(self.next_kitty_id, kitty),
            owned: self.owned.insert(kitty.owner, self.owned[kitty.owner].push(self.next_kitty_id)),
        }
    }

    /// The registry with the kitty `id` moved from the account `from`, where
    /// it leaves a gap that closes, to the end of the list of `to`, and with
    /// no price on it.
    pub open spec fn moved(self, from: AccountId, to: AccountId, id: KittyId) -> Registry {
        Registry {
            next_kitty_id: self.next_kitty_id,
            kitties: self.kitties.insert(id, Kitty { owner: to, price: None, ..self.kitties[id] }),
            owned: relinked(self.owned, from, to, id),
        }
    }

    /// The registry with the price of the kitty `id` set to `price`.
    pub open spec fn priced(self, id: KittyId, price: Option<Balance>) -> Registry {
        Registry {
            next_kitty_id: self.next_kitty_id,
            kitties: self.kitties.insert(id, Kitty { price, ..self.kitties[id] }),
            owned: self.owned,
        }
    }

    /// What `create` returns: the id of the new kitty, unless the ids have
    /// run out.
    pub open spec fn create_result(self) -> Result<KittyId, Error> {
        issued(self.next_kitty_id)
    }

    /// The registry after `caller` created a founder with the payload `dna`.
    pub open spec fn created(self, caller: AccountId, dna: [u8; 16]) -> Registry {
        self.minted(Kitty::made(caller, self.next_kitty_id, None, dna, 0))
    }

    /// What `breed` returns: the id of the child, or the first of these that
    /// applies: a parent does not exist; the parents are one kitty; the
    /// caller does not own both; they are of one sex; the child's generation
    /// does not fit; the ids have run out.
    pub open spec fn breed_result(self, caller: AccountId, id1: KittyId, id2: KittyId) -> Result<
        KittyId,
        Error,
    > {
        if !self.kitties.contains_key(id1) || !self.kitties.contains_key(id2) {
            Err(Error::EntityNotFound)
        } else if id1 == id2 {
            Err(Error::SameParent)
        } else if self.kitties[id1].owner != caller || self.kitties[id2].owner != caller {
            Err(Error::NotOwner)
        } else if self.kitties[id1].sexual == self.kitties[id2].sexual {
            Err(Error::CategoryMismatch)
        } else if later(self.kitties[id1].generation, self.kitties[id2].generation) == u64::MAX {
            Err(Error::GenerationOverflow)
        } else {
            issued(self.next_kitty_id)
        }
    }

    /// The child of the kitties `id1` and `id2` under `selector`.
    pub open spec fn child(
        self,
        caller: AccountId,
        id1: KittyId,
        id2: KittyId,
        selector: [u8; 16],
    ) -> Kitty {
        Kitty::made(
            caller,
            self.next_kitty_id,
            Some((id1, id2)),
            combined_dna(self.kitties[id1].dna, self.kitties[id2].dna, selector),
            (later(self.kitties[id1].generation, self.kitties[id2].generation) + 1) as u64,
        )
    }

    /// The registry after `caller` bred the kitties `id1` and `id2` under
    /// `selector`.
    pub open spec fn bred(
        self,
        caller: AccountId,
        id1: KittyId,
        id2: KittyId,
        selector: [u8; 16],
    ) -> Registry {
        self.minted(self.child(caller, id1, id2, selector))
    }

    /// What `transfer` returns: nothing, or the first of these that applies:
    /// the kitty does not exist; the caller does not own it; the caller
    /// would give it to itself; it is for sale.
    pub open spec fn transfer_result(self, caller: AccountId, to: AccountId, id: KittyId) -> Result<
        (),
        Error,
    > {
        if !self.kitties.contains_key(id) {
            Err(Error::EntityNotFound)
        } else if self.kitties[id].owner != caller {
            Err(Error::NotOwner)
        } else if caller == to {
            Err(Error::SelfTransfer)
        } else if self.kitties[id].price is Some {
            Err(Error::OnSale)
        } else {
            Ok(())
        }
    }

    /// The registry after `caller` gave the kitty `id` to `to`.
    pub open spec fn transferred(self, caller: AccountId, to: AccountId, id: KittyId) -> Registry {
        self.moved(caller, to, id)
    }

    /// What `sell` returns: nothing, or the first of these that applies: the
    /// kitty does not exist; the caller does not own it; it is for sale
    /// already.
    pub open spec fn sell_result(self, caller: AccountId, id: KittyId) -> Result<(), Error> {
        if !self.kitties.contains_key(id) {
            Err(Error::EntityNotFound)
        } else if self.kitties[id].owner != caller {
            Err(Error::NotOwner)
        } else if self.kitties[id].price is Some {
            Err(Error::AlreadyOnSale)
        } else {
            Ok(())
        }
    }

    /// The registry after the kitty `id` was put up for sale at `price`.
    pub open spec fn sold(self, id: KittyId, price: Balance) -> Registry {
        self.priced(id, Some(price))
    }

    /// What `cancel_sell` returns: nothing, or the first of these that
    /// applies: the kitty does not exist; the caller does not own it; it is
    /// not for sale.
    pub open spec fn cancel_sell_result(self, caller: AccountId, id: KittyId) -> Result<(), Error> {
        if !self.kitties.contains_key(id) {
            Err(Error::EntityNotFound)
        } else if self.kitties[id].owner != caller {
            Err(Error::NotOwner)
        } else if self.kitties[id].price is None {
            Err(Error::NotOnSale)
        } else {
            Ok(())
        }
    }

    /// The registry after the sale of the kitty `id` was called off.
    pub open spec fn sale_cancelled(self, id: KittyId) -> Registry {
        self.priced(id, None)
    }

    /// The payment that buying the kitty `id` for at most `max_price` calls
    /// for, or the first of these that applies: the kitty does not exist; it
    /// is not for sale; the price is above `max_price`.
    pub open spec fn payment_due(self, buyer: AccountId, id: KittyId, max_price: Balance) -> Result<
        Payment,
        Error,
    > {
        if !self.kitties.contains_key(id) {
            Err(Error::EntityNotFound)
        } else if self.kitties[id].price is None {
            Err(Error::NotOnSale)
        } else if self.kitties[id].price->Some_0 > max_price {
            Err(Error::BidTooLow)
        } else {
            Ok(Payment { from: buyer, to: self.kitties[id].owner, amount: self.kitties[id].price->Some_0 })
        }
    }

    /// What `buy` returns once the payment was tried: nothing, or why no
    /// payment was due, or that the payment failed.
    pub open spec fn buy_result(
        self,
        buyer: AccountId,
        id: KittyId,
        max_price: Balance,
        paid: bool,
    ) -> Result<(), Error> {
        match self.payment_due(buyer, id, max_price) {
            Err(e) => Err(e),
            Ok(_) => if paid {
                Ok(())
            } else {
                Err(Error::PaymentFailed)
            },
        }
    }

    /// The registry after `buyer` bought the kitty `id`.
    pub open spec fn bought(self, buyer: AccountId, id: KittyId) -> Registry {
        self.moved(self.kitties[id].owner, buyer, id)
    }
}

/// The empty registry is consistent.
pub proof fn lemma_empty_wf()
    ensures
        Registry::empty().wf(),
{
}

/// Adding a kitty under the next id, with parents that exist, keeps the
/// registry consistent.
pub proof fn lemma_minted_wf(r: Registry, kitty: Kitty)
    requires
        r.wf(),
        r.next_kitty_id < u64::MAX,
        kitty.id == r.next_kitty_id,
        kitty.well_formed(),
        match kitty.parents {
            None => kitty.generation == 0,
            Some((a, b)) => {
                &&& a != b
                &&& r.kitties.contains_key(a)
                &&& r.kitties.contains_key(b)
                &&& kitty.generation == later(r.kitties[a].generation, r.kitties[b].generation) + 1
            },
        },
    ensures
        r.minted(kitty).wf(),
        r.minted(kitty).owned[kitty.owner].last() == kitty.id,
{
    let id = r.next_kitty_id;
    let after = r.minted(kitty);
    assert forall|owner: AccountId| !(#[trigger] r.owned[owner].contains(id)) by {
        if r.owned[owner].contains(id) {
            assert(r.kitties.contains_key(id));
        }
    }
    assert(r.owned[kitty.owner].no_duplicates());
    lemma_push_fresh(r.owned[kitty.owner], id);
    assert forall|owner: AccountId, other: KittyId| #[trigger]
        after.owned[owner].contains(other) == (r.owned[owner].contains(other) || (owner == kitty.owner
            && other == id)) by {
        if owner == kitty.owner {
            assert(after.owned[owner] == r.owned[owner].push(id));
        }
    }
    assert forall|owner: AccountId| #[trigger] after.owned[owner].no_duplicates() by {
        assert(r.owned[owner].no_duplicates());
    }
    assert forall|other: KittyId| #[trigger] after.kitties.contains_key(other) implies {
        &&& after.kitties[other].id == other
        &&& after.kitties[other].well_formed()
        &&& after.owned[after.kitties[other].owner].contains(other)
        &&& after.lineage_ok(other)
    } by {
        if other != id {
            assert(r.kitties.contains_key(other));
            assert(r.lineage_ok(other));
            assert(r.owned[r.kitties[other].owner].contains(other));
        } else {
            assert(after.owned[kitty.owner].contains(id));
        }
    }
}

/// Moving a kitty from its owner to another account keeps the registry
/// consistent, and puts the kitty last in the list of the new owner.
pub proof fn lemma_moved_wf(r: Registry, from: AccountId, to: AccountId, id: KittyId)
    requires
        r.wf(),
        r.kitties.contains_key(id),
        r.kitties[id].owner == from,
    ensures
        r.moved(from, to, id).wf(),
        r.moved(from, to, id).kitties[id].owner == to,
        r.moved(from, to, id).owned[to].contains(id),
        r.moved(from, to, id).owned[to].last() == id,
        from != to ==> !r.moved(from, to, id).owned[from].contains(id),
{
    let after = r.moved(from, to, id);
    let left = r.owned.insert(from, without(r.owned[from], id));
    assert(r.owned[from].no_duplicates());
    lemma_without(r.owned[from], id);
    assert forall|owner: AccountId| !(#[trigger] left[owner].contains(id)) by {
        if owner != from && r.owned[owner].contains(id) {
            assert(r.kitties[id].owner == owner);
        }
    }
    assert(left[to].no_duplicates()) by {
        assert(r.owned[to].no_duplicates());
    }
    lemma_push_fresh(left[to], id);
    assert forall|owner: AccountId, other: KittyId| #[trigger]
        after.owned[owner].contains(other) == (if other == id {
            owner == to
        } else {
            r.owned[owner].contains(other)
        }) by {
        assert(other != id ==> left[owner].contains(other) == r.owned[owner].contains(other));
        if owner == to {
            assert(after.owned[owner] == left[owner].push(id));
        } else {
            assert(after.owned[owner] == left[owner]);
        }
    }
    assert forall|owner: AccountId| #[trigger] after.owned[owner].no_duplicates() by {
        assert(r.owned[owner].no_duplicates());
    }
    assert forall|other: KittyId| #[trigger] after.kitties.contains_key(other) implies {
        &&& after.kitties[other].id == other
        &&& after.kitties[other].well_formed()
        &&& after.owned[after.kitties[other].owner].contains(other)
        &&& after.lineage_ok(other)
    } by {
        assert(r.kitties.contains_key(other));
        assert(r.lineage_ok(other));
        assert(r.owned[r.kitties[other].owner].contains(other));
    }
    assert forall|owner: AccountId, other: KittyId| #[trigger]
        after.owned[owner].contains(other) implies after.kitties.contains_key(other)
        && after.kitties[other].owner == owner by {
        if other != id {
            assert(r.owned[owner].contains(other));
        }
    }
}

/// Setting or clearing the price of a kitty keeps the registry consistent.
pub proof fn lemma_priced_wf(r: Registry, id: KittyId, price: Option<Balance>)
    requires
        r.wf(),
        r.kitties.contains_key(id),
    ensures
        r.priced(id, price).wf(),
{
    let after = r.priced(id, price);
    assert forall|other: KittyId| #[trigger] after.kitties.contains_key(other) implies {
        &&& after.kitties[other].id == other
        &&& after.kitties[other].well_formed()
        &&& after.owned[after.kitties[other].owner].contains(other)
        &&& after.lineage_ok(other)
    } by {
        assert(r.kitties.contains_key(other));
        assert(r.lineage_ok(other));
    }
    assert forall|owner: AccountId, other: KittyId| #[trigger]
        after.owned[owner].contains(other) implies after.kitties.contains_key(other)
        && after.kitties[other].owner == owner by {
        assert(r.owned[owner].contains(other));
    }
}

/// Whatever its owner, a kitty that exists cannot breed with itself.
pub proof fn lemma_breed_rejects_same_parent(r: Registry, caller: AccountId, id: KittyId)
    requires
        r.kitties.contains_key(id),
    ensures
        r.breed_result(caller, id, id) == Err::<KittyId, Error>(Error::SameParent),
{
}

/// After a transfer that succeeded, the kitty belongs to the receiver, is
/// listed there, and is no longer listed under the sender.
pub proof fn lemma_transfer_moves_kitty(r: Registry, caller: AccountId, to: AccountId, id: KittyId)
    requires
        r.wf(),
        r.transfer_result(caller, to, id) is Ok,
    ensures
        r.transferred(caller, to, id).wf(),
        !r.transferred(caller, to, id).owned[caller].contains(id),
        r.transferred(caller, to, id).owned[to].contains(id),
        r.transferred(caller, to, id).kitties[id].owner == to,
{
    lemma_moved_wf(r, caller, to, id);
}

/// Unlinks `id` from the ring of `from` and links it in as the last id of
/// the ring of `to`.
///
/// Fails, and writes nothing, where `id` has no node in the ring of `from`.
fn relink(items: &mut LinkedList, from: AccountId, to: AccountId, id: KittyId) -> (r: Result<
    (),
    Error,
>)
    requires
        forall|owner: AccountId| #[trigger] old(items).is_linked(owner),
        old(items).ids(from).contains(id) ==> (from != to ==> !old(items).ids(to).contains(id)),
    ensures
        r is Ok <==> old(items)@.contains_key((from, Some(id))),
        r is Err ==> r == Err::<(), Error>(Error::FatalInconsistency) && final(items)@ == old(
            items,
        )@,
        r is Ok ==> final(items)@ == appended(removed(old(items)@, from, id), to, id),
        forall|owner: AccountId| #[trigger] final(items).is_linked(owner),
        forall|owner: AccountId| #[trigger]
            final(items).ids(owner) == if r is Ok {
                relinked(Map::total(|o: AccountId| old(items).ids(o)), from, to, id)[owner]
            } else {
                old(items).ids(owner)
            },
{
    let ghost before = *items;
    proof {
        assert(before.is_linked(from));
        assert(before.is_linked(to));
        lemma_without(before.ids(from), id);
    }
    match items.remove(from, id) {
        Ok(()) => {},
        Err(e) => {
            proof {
                assert forall|owner: AccountId| #[trigger] items.is_linked(owner) by {
                    assert(before.is_linked(owner));
                    assert(items.ring(owner) == before.ring(owner));
                }
                assert forall|owner: AccountId| #[trigger] items.ids(owner) == before.ids(
                    owner,
                ) by {
                    assert(items.ring(owner) == before.ring(owner));
                }
            }
            return Err(e);
        },
    }
    let ghost unlinked = *items;
    proof {
        assert forall|owner: AccountId| owner != from implies unlinked.ids(owner) == before.ids(
            owner,
        ) && #[trigger] unlinked.is_linked(owner) by {
            assert(before.is_linked(owner));
            assert(unlinked.ring(owner) == before.ring(owner));
        }
        assert(!unlinked.ids(to).contains(id));
    }
    items.append(to, id);
    proof {
        assert forall|owner: AccountId| #[trigger] items.is_linked(owner) by {
            assert(unlinked.is_linked(owner));
            if owner != to {
                assert(items.ring(owner) == unlinked.ring(owner));
            }
        }
        assert forall|owner: AccountId| #[trigger]
            items.ids(owner) == relinked(
                Map::total(|o: AccountId| before.ids(o)),
                from,
                to,
                id,
            )[owner] by {
            if owner != to {
                assert(items.ring(owner) == unlinked.ring(owner));
            }
        }
    }
    Ok(())
}

/// The lowest `n` bits set, the others clear.
spec fn low_bits(n: u8) -> u8 {
    if n >= 8 {
        0xFFu8
    } else {
        ((1u8 << n) - 1) as u8
    }
}

/// The registry that runs. Its view is the [`Registry`] that it stands for.
pub struct Module {
    ids: IdAllocator,
    kitties: Kitties,
    kitty_items: LinkedList,
}

impl View for Module {
    type V = Registry;

    closed spec fn view(&self) -> Registry {
        Registry {
            next_kitty_id: self.ids@,
            kitties: self.kitties@,
            owned: Map::total(|owner: AccountId| self.kitty_items.ids(owner)),
        }
    }
}

impl Module {
    /// The nodes of the index, by owner and id.
    pub closed spec fn items(&self) -> Map<(AccountId, Option<KittyId>), LinkedItem<KittyId>> {
        self.kitty_items@
    }

    /// The ring of every owner is well linked.
    pub closed spec fn linked(&self) -> bool {
        forall|owner: AccountId| #[trigger] self.kitty_items.is_linked(owner)
    }

    /// The registry is consistent, in its rings and in what they stand for.
    pub open spec fn wf(&self) -> bool {
        self.linked() && self@.wf()
    }

    /// A registry without kitties.
    pub fn new() -> (r: Self)
        ensures
            r.wf(),
            r@ == Registry::empty(),
            r.items() == Map::<(AccountId, Option<KittyId>), LinkedItem<KittyId>>::empty(),
    {
        let r = Module { ids: IdAllocator::new(), kitties: Kitties::new(), kitty_items: LinkedList::new() };
        proof {
            assert forall|owner: AccountId| #[trigger]
                r.kitty_items.ids(owner) == Seq::<KittyId>::empty() by {
                assert(r.kitty_items.is_linked(owner));
            }
            assert(r@.owned =~= Registry::empty().owned);
            lemma_empty_wf();
        }
        r
    }

    /// Combines one byte of each parent under one byte of the selector, bit
    /// by bit: where the selector has a one the bit of `dna1` is taken, where
    /// it has a zero the bit of `dna2`.
    pub fn combine_dna(dna1: u8, dna2: u8, selector: u8) -> (r: u8)
        ensures
            r == combined(dna1, dna2, selector),
    {
        let ghost goal = combined(dna1, dna2, selector);
        let mut final_dna: u8 = 0;
        let mut i: u8 = 0;
        assert(0u8 == goal & low_bits(0)) by (bit_vector);
        while i < 8
            invariant
                i <= 8,
                goal == combined(dna1, dna2, selector),
                final_dna == goal & low_bits(i),
            decreases 8 - i,
        {
            let flag: u8 = 1u8 << i;
            let ghost before = final_dna;
            if flag & selector == 0u8 {
                final_dna = final_dna | (dna2 & flag);
                assert(final_dna == goal & low_bits((i + 1) as u8)) by (bit_vector)
                    requires
                        i < 8,
                        flag == 1u8 << i,
                        flag & selector == 0u8,
                        before == goal & low_bits(i),
                        goal == (selector & dna1) | (!selector & dna2),
                        final_dna == before | (dna2 & flag),
                ;
            } else {
                final_dna = final_dna | (dna1 & flag);
                assert(final_dna == goal & low_bits((i + 1) as u8)) by (bit_vector)
                    requires
                        i < 8,
                        flag == 1u8 << i,
                        flag & selector != 0u8,
                        before == goal & low_bits(i),
                        goal == (selector & dna1) | (!selector & dna2),
                        final_dna == before | (dna1 & flag),
                ;
            }
            i = i + 1;
        }
        assert(goal & low_bits(8) == goal) by (bit_vector);
        final_dna
    }

    /// The number of kitties, which is the id of the next one.
    pub fn kitties_count(&self) -> (r: KittyId)
        ensures
            r == self@.next_kitty_id,
    {
        self.ids.count()
    }

    /// The id that the next kitty gets, unless the ids have run out.
    pub fn next_kitty_id(&self) -> (r: Result<KittyId, Error>)
        ensures
            r == issued(self@.next_kitty_id),
    {
        self.ids.next_id()
    }

    /// The kitty with the id `id`, if there is one.
    pub fn kitty(&self, id: KittyId) -> (r: Option<Kitty>)
        ensures
            r == if self@.kitties.contains_key(id) {
                Some(self@.kitties[id])
            } else {
                None
            },
    {
        self.kitties.get(id)
    }

    /// The kitty with the id `id`, or that there is none.
    pub fn find_kitty(&self, id: KittyId) -> (r: Result<Kitty, Error>)
        ensures
            r == if self@.kitties.contains_key(id) {
                Ok::<Kitty, Error>(self@.kitties[id])
            } else {
                Err::<Kitty, Error>(Error::EntityNotFound)
            },
    {
        match self.kitties.get(id) {
            Some(kitty) => Ok(kitty),
            None => Err(Error::EntityNotFound),
        }
    }

    /// The ids of the kitties of `owner`, in the order in which it got them.
    pub fn owned_kitties(&self, owner: AccountId) -> (r: Vec<KittyId>)
        requires
            self.wf(),
        ensures
            r@ == self@.owned[owner],
    {
        assert(self.kitty_items.is_linked(owner));
        self.kitty_items.iterate(owner)
    }

    /// The node that the index holds for `owner` under `id`; under `None`
    /// the head of the owner's ring.
    pub fn kitty_items(&self, owner: AccountId, id: Option<KittyId>) -> (r: Option<LinkedItem<KittyId>>)
        ensures
            r == if self.items().contains_key((owner, id)) {
                Some(self.items()[(owner, id)])
            } else {
                None
            },
    {
        self.kitty_items.get(owner, id)
    }

    /// Stores a new kitty under the next id, lists it last under its owner
    /// and uses the id up.
    ///
    /// Fails, and writes nothing, where the store holds a kitty under that id
    /// already: a kitty is never written over.
    fn insert_kitty(&mut self, owner: AccountId, id: KittyId, kitty: Kitty) -> (r: Result<(), Error>)
        requires
            old(self).linked(),
            id == old(self)@.next_kitty_id,
            id < u64::MAX,
            kitty.owner == owner,
            !old(self)@.kitties.contains_key(id) ==> !old(self)@.owned[owner].contains(id),
        ensures
            r is Err <==> old(self)@.kitties.contains_key(id),
            r is Err ==> r == Err::<(), Error>(Error::FatalInconsistency) && final(self)@ == old(
                self,
            )@ && final(self).items() == old(self).items(),
            r is Ok ==> final(self)@ == old(self)@.minted(kitty) && final(self).items() == appended(
                old(self).items(),
                owner,
                id,
            ),
            final(self).linked(),
            old(self).wf() && kitty.id == id && kitty.well_formed() && (match kitty.parents {
                None => kitty.generation == 0,
                Some((a, b)) => {
                    &&& a != b
                    &&& old(self)@.kitties.contains_key(a)
                    &&& old(self)@.kitties.contains_key(b)
                    &&& kitty.generation == later(
                        old(self)@.kitties[a].generation,
                        old(self)@.kitties[b].generation,
                    ) + 1
                },
            }) ==> r is Ok && final(self).wf(),
    {
        if self.kitties.get(id).is_some() {
            return Err(Error::FatalInconsistency);
        }
        proof {
            assert(self.kitty_items.is_linked(owner));
        }
        self.kitties.insert(id, kitty);
        self.kitty_items.append(owner, id);
        self.ids.advance();
        proof {
            assert forall|other: AccountId| #[trigger] self.kitty_items.is_linked(other) by {
                assert(old(self).kitty_items.is_linked(other));
                if other != owner {
                    assert(self.kitty_items.ring(other) == old(self).kitty_items.ring(other));
                }
            }
            assert forall|other: AccountId|
                other != owner implies #[trigger] self.kitty_items.ids(other) == old(
                self,
            ).kitty_items.ids(other) by {
                assert(self.kitty_items.ring(other) == old(self).kitty_items.ring(other));
            }
            assert(self@.owned =~= old(self)@.minted(kitty).owned);
            if old(self).wf() && kitty.id == id && kitty.well_formed() && (match kitty.parents {
                None => kitty.generation == 0,
                Some((a, b)) => {
                    &&& a != b
                    &&& old(self)@.kitties.contains_key(a)
                    &&& old(self)@.kitties.contains_key(b)
                    &&& kitty.generation == later(
                        old(self)@.kitties[a].generation,
                        old(self)@.kitties[b].generation,
                    ) + 1
                },
            }) {
                lemma_minted_wf(old(self)@, kitty);
            }
        }
        Ok(())
    }

    /// Moves the kitty `id` from the list of `from` to the end of the list
    /// of `to`, makes `to` its owner and takes the price off it.
    ///
    /// Fails, and writes nothing, where the index has no node for `id` under
    /// `from`: the index is changed first, and the store only once that went
    /// through.
    fn do_transfer_kitty(&mut self, from: AccountId, to: AccountId, id: KittyId) -> (r: Result<
        (),
        Error,
    >)
        requires
            old(self).linked(),
            old(self)@.kitties.contains_key(id),
            old(self)@.owned[from].contains(id) ==> (from != to ==> !old(self)@.owned[to].contains(
                id,
            )),
        ensures
            r is Ok <==> old(self).items().contains_key((from, Some(id))),
            r is Err ==> r == Err::<(), Error>(Error::FatalInconsistency) && final(self)@ == old(
                self,
            )@ && final(self).items() == old(self).items(),
            r is Ok ==> final(self)@ == old(self)@.moved(from, to, id) && final(self).items()
                == appended(removed(old(self).items(), from, id), to, id),
            final(self).linked(),
            old(self).wf() && old(self)@.kitties[id].owner == from ==> r is Ok && final(self).wf(),
    {
        match relink(&mut self.kitty_items, from, to, id) {
            Ok(()) => {},
            Err(e) => {
                proof {
                    assert(self@.owned =~= old(self)@.owned);
                    if old(self).wf() && old(self)@.kitties[id].owner == from {
                        assert(old(self)@.owned[from].contains(id));
                        assert(old(self).kitty_items.is_linked(from));
                        assert(old(self).kitty_items.ring(from).contains_key(Some(id)));
                    }
                }
                return Err(e);
            },
        }
        let hand_over = |kitty: Kitty| -> (k: Kitty)
            ensures
                k == (Kitty { owner: to, price: None, ..kitty }),
            {
                let mut changed = kitty;
                changed.owner = to;
                changed.price = None;
                changed
            };
        self.kitties.mutate(id, hand_over);
        proof {
            assert(self@.owned =~= old(self)@.moved(from, to, id).owned);
            assert(self@.kitties =~= old(self)@.moved(from, to, id).kitties);
            if old(self).wf() && old(self)@.kitties[id].owner == from {
                lemma_moved_wf(old(self)@, from, to, id);
            }
        }
        Ok(())
    }

    /// Sets the price of the kitty `id`.
    fn set_price(&mut self, id: KittyId, price: Option<Balance>)
        requires
            old(self).wf(),
            old(self)@.kitties.contains_key(id),
        ensures
            final(self).wf(),
            final(self)@ == old(self)@.priced(id, price),
            final(self).items() == old(self).items(),
    {
        let reprice = |kitty: Kitty| -> (k: Kitty)
            ensures
                k == (Kitty { price, ..kitty }),
            {
                let mut changed = kitty;
                changed.price = price;
                changed
            };
        self.kitties.mutate(id, reprice);
        proof {
            assert(self@.owned =~= old(self)@.owned);
            assert(self@.kitties =~= old(self)@.priced(id, price).kitties);
            lemma_priced_wf(old(self)@, id, price);
        }
    }

    /// Creates a founder for `caller`: a kitty of generation zero without
    /// parents, whose payload is `dna`. Returns its id.
    ///
    /// Fails only when the ids have run out, and then changes nothing.
    pub fn create(&mut self, caller: AccountId, dna: [u8; 16]) -> (r: Result<KittyId, Error>)
        requires
            old(self).wf(),
        ensures
            final(self).wf(),
            r == old(self)@.create_result(),
            r is Ok ==> final(self)@ == old(self)@.created(caller, dna),
            r is Ok ==> final(self).items() == appended(old(self).items(), caller, r->Ok_0),
            r is Err ==> final(self)@ == old(self)@ && final(self).items() == old(self).items(),
    {
        let id = match self.next_kitty_id() {
            Ok(id) => id,
            Err(e) => {
                return Err(e);
            },
        };
        let kitty = Kitty::new(caller, id, None, dna, 0);
        match self.insert_kitty(caller, id, kitty) {
            Ok(()) => Ok(id),
            Err(e) => Err(e),
        }
    }

    /// Breeds the kitties `id1` and `id2` of `caller`: the child takes each
    /// bit of its payload from `id1` where `selector` has a one and from
    /// `id2` where it has a zero, and is one generation younger than the
    /// younger of its parents. Returns the child's id.
    ///
    /// Fails, and changes nothing, for the reasons that
    /// [`Registry::breed_result`] gives.
    pub fn breed(&mut self, caller: AccountId, id1: KittyId, id2: KittyId, selector: [u8; 16]) -> (r:
        Result<KittyId, Error>)
        requires
            old(self).wf(),
        ensures
            final(self).wf(),
            r == old(self)@.breed_result(caller, id1, id2),
            r is Ok ==> final(self)@ == old(self)@.bred(caller, id1, id2, selector),
            r is Ok ==> final(self).items() == appended(old(self).items(), caller, r->Ok_0),
            r is Err ==> final(self)@ == old(self)@ && final(self).items() == old(self).items(),
    {
        let kitty1 = self.kitty(id1);
        let kitty2 = self.kitty(id2);
        if kitty1.is_none() || kitty2.is_none() {
            return Err(Error::EntityNotFound);
        }
        if id1 == id2 {
            return Err(Error::SameParent);
        }
        let kitty1 = kitty1.unwrap();
        let kitty2 = kitty2.unwrap();
        if kitty1.owner != caller || kitty2.owner != caller {
            return Err(Error::NotOwner);
        }
        if kitty1.sexual == kitty2.sexual {
            return Err(Error::CategoryMismatch);
        }
        let elder: u64 = if kitty1.generation >= kitty2.generation {
            kitty1.generation
        } else {
            kitty2.generation
        };
        if elder == u64::MAX {
            return Err(Error::GenerationOverflow);
        }
        let id = match self.next_kitty_id() {
            Ok(id) => id,
            Err(e) => {
                return Err(e);
            },
        };
        let new_dna = crate::dna::combine(&kitty1.dna, &kitty2.dna, &selector);
        let kitty = Kitty::new(caller, id, Some((id1, id2)), new_dna, elder + 1);
        match self.insert_kitty(caller, id, kitty) {
            Ok(()) => Ok(id),
            Err(e) => Err(e),
        }
    }

    /// Gives the kitty `id` of `caller` to `to`: it leaves the list of
    /// `caller` and comes last in the list of `to`.
    ///
    /// Fails, and changes nothing, for the reasons that
    /// [`Registry::transfer_result`] gives.
    pub fn transfer(&mut self, caller: AccountId, to: AccountId, id: KittyId) -> (r: Result<(), Error>)
        requires
            old(self).wf(),
        ensures
            final(self).wf(),
            r == old(self)@.transfer_result(caller, to, id),
            r is Ok ==> final(self)@ == old(self)@.transferred(caller, to, id),
            r is Ok ==> !final(self)@.owned[caller].contains(id) && final(self)@.owned[to].contains(id)
                && final(self)@.kitties[id].owner == to,
            r is Ok ==> final(self).items() == appended(removed(old(self).items(), caller, id), to, id),
            r is Err ==> final(self)@ == old(self)@ && final(self).items() == old(self).items(),
    {
        let kitty = match self.find_kitty(id) {
            Ok(kitty) => kitty,
            Err(e) => {
                return Err(e);
            },
        };
        if kitty.owner != caller {
            return Err(Error::NotOwner);
        }
        if caller == to {
            return Err(Error::SelfTransfer);
        }
        if kitty.is_on_sale() {
            return Err(Error::OnSale);
        }
        proof {
            assert(self@.owned[caller].contains(id));
            if self@.owned[to].contains(id) {
                assert(self@.kitties[id].owner == to);
            }
            lemma_transfer_moves_kitty(self@, caller, to, id);
        }
        match self.do_transfer_kitty(caller, to, id) {
            Ok(()) => Ok(()),
            Err(e) => Err(e),
        }
    }

    /// Puts the kitty `id` of `caller` up for sale at `price`.
    ///
    /// Fails, and changes nothing, for the reasons that
    /// [`Registry::sell_result`] gives.
    pub fn sell(&mut self, caller: AccountId, id: KittyId, price: Balance) -> (r: Result<(), Error>)
        requires
            old(self).wf(),
        ensures
            final(self).wf(),
            r == old(self)@.sell_result(caller, id),
            r is Ok ==> final(self)@ == old(self)@.sold(id, price),
            r is Err ==> final(self)@ == old(self)@,
            final(self).items() == old(self).items(),
    {
        let kitty = match self.find_kitty(id) {
            Ok(kitty) => kitty,
            Err(e) => {
                return Err(e);
            },
        };
        if kitty.owner != caller {
            return Err(Error::NotOwner);
        }
        if kitty.is_on_sale() {
            return Err(Error::AlreadyOnSale);
        }
        self.set_price(id, Some(price));
        Ok(())
    }

    /// Calls off the sale of the kitty `id` of `caller`.
    ///
    /// Fails, and changes nothing, for the reasons that
    /// [`Registry::cancel_sell_result`] gives.
    pub fn cancel_sell(&mut self, caller: AccountId, id: KittyId) -> (r: Result<(), Error>)
        requires
            old(self).wf(),
        ensures
            final(self).wf(),
            r == old(self)@.cancel_sell_result(caller, id),
            r is Ok ==> final(self)@ == old(self)@.sale_cancelled(id),
            r is Err ==> final(self)@ == old(self)@,
            final(self).items() == old(self).items(),
    {
        let kitty = match self.find_kitty(id) {
            Ok(kitty) => kitty,
            Err(e) => {
                return Err(e);
            },
        };
        if kitty.owner != caller {
            return Err(Error::NotOwner);
        }
        if !kitty.is_on_sale() {
            return Err(Error::NotOnSale);
        }
        self.set_price(id, None);
        Ok(())
    }

    /// The payment that `buyer` has to make to the owner before it can buy
    /// the kitty `id` for at most `max_price`: the price that the owner asks.
    ///
    /// Fails for the reasons that [`Registry::payment_due`] gives.
    pub fn payment_due(&self, buyer: AccountId, id: KittyId, max_price: Balance) -> (r: Result<
        Payment,
        Error,
    >)
        ensures
            r == self@.payment_due(buyer, id, max_price),
    {
        let kitty = match self.find_kitty(id) {
            Ok(kitty) => kitty,
            Err(e) => {
                return Err(e);
            },
        };
        match kitty.price {
            None => Err(Error::NotOnSale),
            Some(price) => {
                if price > max_price {
                    Err(Error::BidTooLow)
                } else {
                    Ok(Payment { from: buyer, to: kitty.owner, amount: price })
                }
            },
        }
    }

    /// Completes the purchase of the kitty `id` by `buyer`, once the payment
    /// of [`Module::payment_due`] was tried; `paid` says whether it went
    /// through. The kitty leaves the list of its owner, comes last in the
    /// list of `buyer`, and is no longer for sale.
    ///
    /// Fails, and changes nothing, where no payment was due or the payment
    /// failed.
    pub fn buy(&mut self, buyer: AccountId, id: KittyId, max_price: Balance, paid: bool) -> (r: Result<
        (),
        Error,
    >)
        requires
            old(self).wf(),
        ensures
            final(self).wf(),
            r == old(self)@.buy_result(buyer, id, max_price, paid),
            r is Ok ==> final(self)@ == old(self)@.bought(buyer, id),
            r is Ok ==> final(self).items() == appended(
                removed(old(self).items(), old(self)@.kitties[id].owner, id),
                buyer,
                id,
            ),
            r is Err ==> final(self)@ == old(self)@ && final(self).items() == old(self).items(),
    {
        let payment = match self.payment_due(buyer, id, max_price) {
            Ok(payment) => payment,
            Err(e) => {
                return Err(e);
            },
        };
        if !paid {
            return Err(Error::PaymentFailed);
        }
        proof {
            assert(self@.owned[payment.to].contains(id));
            if payment.to != buyer && self@.owned[buyer].contains(id) {
                assert(self@.kitties[id].owner == buyer);
            }
        }
        match self.do_transfer_kitty(payment.to, buyer, id) {
            Ok(()) => Ok(()),
            Err(e) => Err(e),
        }
    }
}

} // verus!
