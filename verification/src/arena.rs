//! Typed arenas: stable keys handed out by a slot map, entities in a table.
//!
//! The slot map maps each live key to a row of the table, so one set of
//! slot-map calls serves every entity type.

use core::marker::PhantomData;

use slotmap::{DefaultKey, Key, KeyData, SlotMap};
use vstd::prelude::*;

verus! {

/// The largest number of entries that a slot map accepts.
pub const SLOT_LIMIT: usize = 0xFFFF_FFFE;

/// A `slotmap::SlotMap` from its default keys to rows of a table.
#[verifier::external_body]
pub struct Slots {
    map: SlotMap<DefaultKey, usize>,
}

/// What a slot map holds: for each live key, written as the integer that
/// `KeyData::as_ffi` gives for it, the value stored under it.
pub uninterp spec fn slot_contents(slots: Slots) -> Map<u64, usize>;

/// The keys that a slot map last gave out for the slots that are vacant now, in
/// the same integer form.
pub uninterp spec fn slot_retired(slots: Slots) -> Set<u64>;

/// Nothing stored.
pub open spec fn no_slots() -> Map<u64, usize> {
    Map::empty()
}

/// No key.
pub open spec fn no_keys() -> Set<u64> {
    Set::empty()
}

/// The keys of other slots than that of a key.
pub open spec fn of_other_slots(keys: Set<u64>, raw: u64) -> Set<u64> {
    keys.filter(|k: u64| slot_index(k) != slot_index(raw))
}

/// The slot that a key names: the low 32 bits of its integer form.
pub open spec fn slot_index(raw: u64) -> int {
    raw as int % 0x1_0000_0000
}

/// The generation of a key: the high 32 bits of its integer form.
pub open spec fn slot_version(raw: u64) -> int {
    raw as int / 0x1_0000_0000
}

/// Whether an integer is the form of some key: generations of keys are odd.
pub open spec fn is_key_form(raw: u64) -> bool {
    slot_version(raw) % 2 == 1
}

/// Whether an integer is the form of a key that is not the null key.
pub open spec fn is_live_form(raw: u64) -> bool {
    is_key_form(raw) && slot_index(raw) != 0xFFFF_FFFF
}

/// Whether the keys stand in slot order, each once.
pub open spec fn in_slot_order(raws: Seq<u64>) -> bool {
    forall|i: int, j: int|
        0 <= i < j < raws.len() ==> slot_index(#[trigger] raws[i]) < slot_index(#[trigger] raws[j])
}

/// `SlotMap::new`: a slot map that holds nothing and has given out no key.
#[verifier::external_body]
fn slots_new() -> (slots: Slots)
    ensures
        slot_contents(slots) == no_slots(),
        slot_retired(slots) == no_keys(),
{
    Slots { map: SlotMap::new() }
}

/// `SlotMap::len`: the number of live keys.
#[verifier::external_body]
fn slots_len(slots: &Slots) -> (n: usize)
    ensures
        n == slot_contents(*slots).dom().len(),
        n <= SLOT_LIMIT,
{
    slots.map.len()
}

/// `SlotMap::insert`: stores the value under a key that no stored value has,
/// in a slot that no stored value occupies. The key is not the null key, and
/// where the slot was vacated, its generation is the one after that of the
/// vacancy, so it is not the key that the slot had last.
/// A slot map with `SLOT_LIMIT` entries is full; the call would panic there.
#[verifier::external_body]
fn slots_insert(slots: &mut Slots, value: usize) -> (raw: u64)
    requires
        slot_contents(*old(slots)).dom().len() < SLOT_LIMIT,
    ensures
        is_live_form(raw),
        forall|k: u64|
            #[trigger] slot_contents(*old(slots)).dom().contains(k) ==> slot_index(k) != slot_index(
                raw,
            ),
        slot_contents(*final(slots)) == slot_contents(*old(slots)).insert(raw, value),
        !slot_retired(*old(slots)).contains(raw),
        slot_retired(*final(slots)) == of_other_slots(slot_retired(*old(slots)), raw),
{
    slots.map.insert(value).data().as_ffi()
}

/// `SlotMap::get`: the value stored under a key, if the key is live.
#[verifier::external_body]
fn slots_get(slots: &Slots, raw: u64) -> (value: Option<usize>)
    requires
        is_key_form(raw),
    ensures
        value == (if slot_contents(*slots).dom().contains(raw) {
            Some(slot_contents(*slots)[raw])
        } else {
            None
        }),
{
    slots.map.get(DefaultKey::from(KeyData::from_ffi(raw))).copied()
}

/// `SlotMap::remove`: takes a live key and its value out, which vacates its
/// slot; a key that is not live changes nothing.
#[verifier::external_body]
fn slots_remove(slots: &mut Slots, raw: u64) -> (value: Option<usize>)
    requires
        is_key_form(raw),
    ensures
        value == (if slot_contents(*old(slots)).dom().contains(raw) {
            Some(slot_contents(*old(slots))[raw])
        } else {
            None
        }),
        slot_contents(*final(slots)) == slot_contents(*old(slots)).remove(raw),
        slot_retired(*final(slots)) == (if slot_contents(*old(slots)).dom().contains(raw) {
            slot_retired(*old(slots)).insert(raw)
        } else {
            slot_retired(*old(slots))
        }),
{
    slots.map.remove(DefaultKey::from(KeyData::from_ffi(raw)))
}

/// `SlotMap::keys`: the live keys, in the order of their slots.
#[verifier::external_body]
fn slots_keys(slots: &Slots) -> (raws: Vec<u64>)
    ensures
        raws@.to_set() == slot_contents(*slots).dom(),
        in_slot_order(raws@),
{
    slots.map.keys().map(|k| k.data().as_ffi()).collect()
}

/// `SlotMap::drain`: takes everything out, in the order of the slots, all of
/// which are vacant then.
#[verifier::external_body]
fn slots_drain(slots: &mut Slots) -> (entries: Vec<(u64, usize)>)
    ensures
        slot_contents(*final(slots)) == no_slots(),
        slot_retired(*final(slots)) == slot_retired(*old(slots)).union(
            slot_contents(*old(slots)).dom(),
        ),
        entries@.map_values(|e: (u64, usize)| e.0).to_set() == slot_contents(*old(slots)).dom(),
        in_slot_order(entries@.map_values(|e: (u64, usize)| e.0)),
        forall|i: int|
            0 <= i < entries@.len() ==> #[trigger] entries@[i].1 == slot_contents(
                *old(slots),
            )[entries@[i].0],
{
    slots.map.drain().map(|e| (e.0.data().as_ffi(), e.1)).collect()
}

/// A key of a slot map, as an integer.
#[derive(Clone, Copy, Debug, PartialEq, Eq, Hash, PartialOrd, Ord, Structural)]
pub struct SlotKey {
    raw: u64,
}

impl SlotKey {
    /// Every key has a generation that some slot can carry.
    #[verifier::type_invariant]
    spec fn well_formed(self) -> bool {
        is_key_form(self.raw)
    }

    /// The integer form of the key.
    pub closed spec fn raw(self) -> u64 {
        self.raw
    }

    /// The key that no entity ever has.
    pub closed spec fn null_key() -> SlotKey {
        SlotKey { raw: 0x1_FFFF_FFFF }
    }

    /// The null key: it is in no arena.
    pub fn null() -> (key: SlotKey)
        ensures
            key == SlotKey::null_key(),
    {
        SlotKey { raw: 0x1_FFFF_FFFF }
    }
}

/// A key type of its own for each kind of entity.
pub trait EntityKey: Sized + Copy {
    /// The slot-map key inside.
    spec fn slot(self) -> SlotKey;

    /// The entity key around a slot-map key.
    spec fn of(slot: SlotKey) -> Self;

    /// Entity keys are slot-map keys under another name.
    proof fn lemma_renaming(self, slot: SlotKey)
        ensures
            Self::of(self.slot()) == self,
            Self::of(slot).slot() == slot,
    ;

    /// The slot-map key inside.
    fn slot_key(&self) -> (slot: SlotKey)
        ensures
            slot == self.slot(),
    ;

    /// The entity key around a slot-map key.
    fn of_slot(slot: SlotKey) -> (key: Self)
        ensures
            key == Self::of(slot),
    ;
}

/// Whether keys stand in the order of their slots, each once.
pub open spec fn in_key_order<K: EntityKey>(keys: Seq<K>) -> bool {
    forall|i: int, j: int|
        0 <= i < j < keys.len() ==> slot_index((#[trigger] keys[i]).slot().raw()) < slot_index(
            (#[trigger] keys[j]).slot().raw(),
        )
}

/// The keys of a set in the order of their slots.
pub open spec fn key_order<K: EntityKey>(keys: Set<K>) -> Seq<K> {
    choose|order: Seq<K>| in_key_order(order) && #[trigger] order.to_set() == keys
}

/// Keys in slot order are distinct.
pub proof fn lemma_in_order_distinct<K: EntityKey>(keys: Seq<K>)
    requires
        in_key_order(keys),
    ensures
        keys.no_duplicates(),
{
}

/// Two sequences in slot order over one set are the same.
proof fn lemma_same_order<K: EntityKey>(a: Seq<K>, b: Seq<K>)
    requires
        in_key_order(a),
        in_key_order(b),
        a.to_set() == b.to_set(),
    ensures
        a == b,
    decreases a.len(),
{
    if a.len() == 0 || b.len() == 0 {
        if a.len() > 0 {
            assert(b.to_set().contains(a[0])) by {
                assert(a.to_set().contains(a[0]));
            }
        }
        if b.len() > 0 {
            assert(a.to_set().contains(b[0])) by {
                assert(b.to_set().contains(b[0]));
            }
        }
        assert(a =~= b);
    } else {
        let m = a.len() - 1;
        let n = b.len() - 1;
        assert(a.to_set().contains(a[m]) && b.to_set().contains(b[n]));
        let p = choose|p: int| 0 <= p < b.len() && b[p] == a[m];
        let q = choose|q: int| 0 <= q < a.len() && a[q] == b[n];
        assert(a[m] == b[n]);
        let a1 = a.drop_last();
        let b1 = b.drop_last();
        assert forall|k: K| a1.to_set().contains(k) <==> b1.to_set().contains(k) by {
            if a1.to_set().contains(k) {
                let i = choose|i: int| 0 <= i < a1.len() && a1[i] == k;
                assert(a[i] == k && a.to_set().contains(k));
                let j = choose|j: int| 0 <= j < b.len() && b[j] == k;
                assert(b1[j] == k);
            }
            if b1.to_set().contains(k) {
                let i = choose|i: int| 0 <= i < b1.len() && b1[i] == k;
                assert(b[i] == k && b.to_set().contains(k));
                let j = choose|j: int| 0 <= j < a.len() && a[j] == k;
                assert(a1[j] == k);
            }
        }
        assert(a1.to_set() =~= b1.to_set());
        lemma_same_order(a1, b1);
        assert(a =~= a1.push(a[m]));
        assert(b =~= b1.push(b[n]));
    }
}

/// A sequence in slot order over a set is the order of that set.
pub proof fn lemma_key_order_unique<K: EntityKey>(order: Seq<K>, keys: Set<K>)
    requires
        in_key_order(order),
        order.to_set() == keys,
    ensures
        order == key_order(keys),
{
    lemma_same_order(order, key_order(keys));
}

/// Where a key goes among keys in slot order.
proof fn lemma_insertion_place<K: EntityKey>(order: Seq<K>, key: K) -> (p: int)
    requires
        in_key_order(order),
        forall|i: int|
            0 <= i < order.len() ==> slot_index((#[trigger] order[i]).slot().raw()) != slot_index(
                key.slot().raw(),
            ),
    ensures
        0 <= p <= order.len(),
        forall|i: int|
            0 <= i < p ==> slot_index((#[trigger] order[i]).slot().raw()) < slot_index(
                key.slot().raw(),
            ),
        forall|i: int|
            p <= i < order.len() ==> slot_index((#[trigger] order[i]).slot().raw()) > slot_index(
                key.slot().raw(),
            ),
    decreases order.len(),
{
    if order.len() == 0 {
        0
    } else if slot_index(order.last().slot().raw()) < slot_index(key.slot().raw()) {
        order.len() as int
    } else {
        let p = lemma_insertion_place(order.drop_last(), key);
        assert forall|i: int| 0 <= i < p implies slot_index((#[trigger] order[i]).slot().raw())
            < slot_index(key.slot().raw()) by {
            assert(order.drop_last()[i] == order[i]);
        }
        assert forall|i: int| p <= i < order.len() implies slot_index(
            (#[trigger] order[i]).slot().raw(),
        ) > slot_index(key.slot().raw()) by {
            if i < order.len() - 1 {
                assert(order.drop_last()[i] == order[i]);
            }
        }
        p
    }
}

/// Keys of distinct slots can be put in slot order.
proof fn lemma_order_exists<K: EntityKey>(keys: Set<K>) -> (order: Seq<K>)
    requires
        keys.finite(),
        forall|a: K, b: K|
            keys.contains(a) && keys.contains(b) && slot_index(#[trigger] a.slot().raw())
                == slot_index(#[trigger] b.slot().raw()) ==> a == b,
    ensures
        in_key_order(order),
        order.to_set() == keys,
    decreases keys.len(),
{
    if keys.len() == 0 {
        let order = Seq::<K>::empty();
        assert(order.to_set() =~= keys);
        order
    } else {
        let key = keys.choose();
        let rest = lemma_order_exists(keys.remove(key));
        assert forall|i: int| 0 <= i < rest.len() implies slot_index(
            (#[trigger] rest[i]).slot().raw(),
        ) != slot_index(key.slot().raw()) && keys.contains(rest[i]) && rest[i] != key by {
            assert(rest.to_set().contains(rest[i]));
        }
        let p = lemma_insertion_place(rest, key);
        let order = rest.insert(p, key);
        assert forall|k: K| order.to_set().contains(k) <==> keys.contains(k) by {
            if keys.contains(k) && k != key {
                assert(rest.to_set().contains(k));
                let i = choose|i: int| 0 <= i < rest.len() && rest[i] == k;
                assert(order[if i < p { i } else { i + 1 }] == k);
            }
            if order.to_set().contains(k) {
                let i = choose|i: int| 0 <= i < order.len() && order[i] == k;
                if i != p {
                    assert(rest[if i < p { i } else { i - 1 }] == k);
                }
            }
            assert(order[p] == key);
        }
        assert(order.to_set() =~= keys);
        order
    }
}

/// Entities under stable keys.
pub struct Arena<K, T> {
    slots: Slots,
    rows: Vec<Option<T>>,
    spare: Vec<usize>,
    kind: PhantomData<K>,
}

impl<K, T> Arena<K, T> {
    /// Each live key has a filled row of its own, and the spare rows are empty.
    pub closed spec fn wf(&self) -> bool {
        let live = slot_contents(self.slots);
        &&& live.dom().finite()
        &&& live.dom().len() <= SLOT_LIMIT
        &&& forall|raw: u64| #[trigger]
            live.dom().contains(raw) ==> is_live_form(raw) && live[raw] < self.rows@.len()
                && self.rows@[live[raw] as int] is Some
        &&& forall|a: u64, b: u64|
            #![trigger live.dom().contains(a), live.dom().contains(b)]
            live.dom().contains(a) && live.dom().contains(b) && live[a] == live[b] ==> a == b
        &&& forall|a: u64, b: u64|
            #![trigger live.dom().contains(a), live.dom().contains(b)]
            live.dom().contains(a) && live.dom().contains(b) && slot_index(a) == slot_index(b)
                ==> a == b
        &&& forall|i: int|
            0 <= i < self.spare@.len() ==> (#[trigger] self.spare@[i]) < self.rows@.len()
                && self.rows@[self.spare@[i] as int] is None
        &&& self.spare@.no_duplicates()
    }
}

impl<K: EntityKey, T> Arena<K, T> {
    /// Whether a key has been given out and will not come up again as long as
    /// what is live stays: its slot is vacant since, or another key has it.
    pub closed spec fn spent(&self, key: K) -> bool {
        let live = slot_contents(self.slots);
        let raw = key.slot().raw();
        &&& !live.dom().contains(raw)
        &&& slot_retired(self.slots).contains(raw) || exists|k: u64| #[trigger]
            live.dom().contains(k) && slot_index(k) == slot_index(raw)
    }

    /// A spent key is not live.
    pub proof fn lemma_spent(&self, key: K)
        requires
            self.spent(key),
        ensures
            !self@.dom().contains(key),
    {
    }

    /// Live keys have slots of their own.
    pub proof fn lemma_own_slots(&self, a: K, b: K)
        requires
            self.wf(),
            self@.dom().contains(a),
            self@.dom().contains(b),
            a != b,
        ensures
            slot_index(a.slot().raw()) != slot_index(b.slot().raw()),
    {
        let live = slot_contents(self.slots);
        assert(live.dom().contains(a.slot().raw()) && live.dom().contains(b.slot().raw()));
        a.lemma_renaming(a.slot());
        b.lemma_renaming(b.slot());
    }

    /// The entity that each live key names.
    pub closed spec fn view(&self) -> Map<K, T> {
        let live = slot_contents(self.slots);
        let rows = self.rows@;
        Map::new(
            |key: K| live.dom().contains(key.slot().raw()),
            |key: K| rows[live[key.slot().raw()] as int]->0,
        )
    }

    /// An arena without entities.
    pub fn new() -> (arena: Self)
        ensures
            arena.wf(),
            arena@ == Map::<K, T>::empty(),
    {
        let arena = Arena { slots: slots_new(), rows: Vec::new(), spare: Vec::new(), kind: PhantomData };
        assert(arena@ =~= Map::<K, T>::empty());
        arena
    }

    /// The entity under a key, if the key is live.
    pub fn get(&self, key: K) -> (entity: Option<&T>)
        requires
            self.wf(),
        ensures
            entity is Some <==> self@.dom().contains(key),
            entity is Some ==> *entity->0 == self@[key],
    {
        let slot = key.slot_key();
        proof {
            use_type_invariant(&slot);
        }
        match slots_get(&self.slots, slot.raw) {
            None => None,
            Some(row) => self.rows[row].as_ref(),
        }
    }

    /// How many keys are live.
    pub fn len(&self) -> (n: usize)
        requires
            self.wf(),
        ensures
            self@.dom().finite(),
            n == self@.dom().len(),
            n <= SLOT_LIMIT,
    {
        proof {
            self.lemma_len();
        }
        slots_len(&self.slots)
    }

    /// Whether no key is live.
    pub fn is_empty(&self) -> (empty: bool)
        requires
            self.wf(),
        ensures
            empty <==> self@.dom().len() == 0,
            empty <==> self@ =~= Map::<K, T>::empty(),
    {
        let n: usize = self.len();
        proof {
            if n == 0 {
                assert(self@.dom() =~= Set::<K>::empty());
            }
        }
        n == 0
    }

    /// Stores an entity under a key that no other entity has.
    pub fn insert(&mut self, entity: T) -> (key: K)
        requires
            old(self).wf(),
            old(self)@.dom().len() < SLOT_LIMIT,
        ensures
            final(self).wf(),
            !old(self)@.dom().contains(key),
            key != K::of(SlotKey::null_key()),
            final(self)@ == old(self)@.insert(key, entity),
            final(self)@.dom().len() == old(self)@.dom().len() + 1,
            !old(self).spent(key),
            forall|k: K| old(self).spent(k) ==> #[trigger] final(self).spent(k),
    {
        proof {
            self.lemma_len();
        }
        let ghost before = *self;
        let row: usize = match self.spare.pop() {
            Some(row) => {
                assert(row == before.spare@.last());
                assert(before.rows@[row as int] is None);
                self.rows[row] = Some(entity);
                row
            },
            None => {
                let row: usize = self.rows.len();
                self.rows.push(Some(entity));
                row
            },
        };
        let raw: u64 = slots_insert(&mut self.slots, row);
        let slot = SlotKey { raw };
        let key = K::of_slot(slot);
        proof {
            key.lemma_renaming(slot);
            key.lemma_renaming(SlotKey::null_key());
            assert forall|k: K| #[trigger] k.slot().raw() == raw implies k == key by {
                k.lemma_renaming(slot);
                key.lemma_renaming(slot);
            }
            assert(self@ =~= before@.insert(key, entity));
            assert forall|k: K| before.spent(k) implies #[trigger] self.spent(k) by {
                let live = slot_contents(before.slots);
                let now = slot_contents(self.slots);
                k.lemma_renaming(k.slot());
                assert(now.dom().contains(raw));
                if slot_retired(before.slots).contains(k.slot().raw()) {
                    assert(k.slot().raw() != raw);
                } else {
                    let other = choose|other: u64| #[trigger]
                        live.dom().contains(other) && slot_index(other) == slot_index(
                            k.slot().raw(),
                        );
                    assert(now.dom().contains(other));
                }
            }
        }
        key
    }

    /// The entity under a key, to be changed in place, if the key is live.
    pub fn get_mut(&mut self, key: K) -> (entity: Option<&mut T>)
        requires
            old(self).wf(),
        ensures
            final(self).wf(),
            entity is Some <==> old(self)@.dom().contains(key),
            entity is Some ==> *entity->0 == old(self)@[key] && final(self)@ =~= old(self)@.insert(
                key,
                *final(entity->0),
            ),
            entity is None ==> final(self)@ == old(self)@,
            forall|k: K| #[trigger] final(self).spent(k) == old(self).spent(k),
    {
        let slot = key.slot_key();
        proof {
            use_type_invariant(&slot);
            assert forall|k: K| #[trigger] k.slot().raw() == slot.raw implies k == key by {
                k.lemma_renaming(slot);
                key.lemma_renaming(slot);
            }
        }
        match slots_get(&self.slots, slot.raw) {
            None => None,
            Some(row) => self.rows[row].as_mut(),
        }
    }

    /// Takes an entity out, if its key is live.
    pub fn remove(&mut self, key: K) -> (entity: Option<T>)
        requires
            old(self).wf(),
        ensures
            final(self).wf(),
            entity == (if old(self)@.dom().contains(key) {
                Some(old(self)@[key])
            } else {
                None
            }),
            final(self)@ == old(self)@.remove(key),
            old(self)@.dom().contains(key) ==> final(self).spent(key),
            forall|k: K|
                old(self).spent(k) && slot_index(k.slot().raw()) != slot_index(key.slot().raw())
                    ==> #[trigger] final(self).spent(k),
    {
        let ghost before = *self;
        let slot = key.slot_key();
        proof {
            use_type_invariant(&slot);
            assert forall|k: K| #[trigger] k.slot().raw() == slot.raw implies k == key by {
                k.lemma_renaming(slot);
                key.lemma_renaming(slot);
            }
        }
        let entity = match slots_remove(&mut self.slots, slot.raw) {
            None => None,
            Some(row) => {
                assert(slot_contents(before.slots).dom().contains(slot.raw));
                let entity = self.rows[row].take();
                self.spare.push(row);
                entity
            },
        };
        proof {
            assert(self@ =~= before@.remove(key));
            assert forall|k: K|
                before.spent(k) && slot_index(k.slot().raw()) != slot_index(
                    slot.raw,
                ) implies #[trigger] self.spent(k) by {
                let live = slot_contents(before.slots);
                let now = slot_contents(self.slots);
                if !slot_retired(before.slots).contains(k.slot().raw()) {
                    let other = choose|other: u64| #[trigger]
                        live.dom().contains(other) && slot_index(other) == slot_index(
                            k.slot().raw(),
                        );
                    assert(now.dom().contains(other));
                }
            }
        }
        entity
    }

    /// The live keys, in the order of their slots.
    pub fn keys(&self) -> (keys: Vec<K>)
        requires
            self.wf(),
        ensures
            keys@ == key_order(self@.dom()),
            keys@.no_duplicates(),
            keys@.to_set() == self@.dom(),
            keys@.len() == self@.dom().len(),
    {
        let raws = slots_keys(&self.slots);
        let mut keys: Vec<K> = Vec::new();
        let mut i: usize = 0;
        while i < raws.len()
            invariant
                i <= raws@.len(),
                keys@.len() == i,
                self.wf(),
                raws@.to_set() == slot_contents(self.slots).dom(),
                forall|j: int| 0 <= j < i ==> #[trigger] keys@[j] == K::of(SlotKey { raw: raws@[j] }),
            decreases raws@.len() - i,
        {
            assert(raws@.to_set().contains(raws@[i as int]));
            keys.push(K::of_slot(SlotKey { raw: raws[i] }));
            i = i + 1;
        }
        proof {
            self.lemma_keys(raws@, keys@);
        }
        keys
    }

    /// Takes every entity out, in the order of the slots.
    pub fn drain(&mut self) -> (entries: Vec<(K, T)>)
        requires
            old(self).wf(),
        ensures
            final(self).wf(),
            final(self)@ == Map::<K, T>::empty(),
            forall|k: K| old(self)@.dom().contains(k) ==> #[trigger] final(self).spent(k),
            entries@.map_values(|e: (K, T)| e.0) == key_order(old(self)@.dom()),
            forall|i: int|
                0 <= i < entries@.len() ==> old(self)@.dom().contains(#[trigger] entries@[i].0)
                    && entries@[i].1 == old(self)@[entries@[i].0],
    {
        let ghost before = *self;
        let drained = slots_drain(&mut self.slots);
        let ghost raws = drained@.map_values(|e: (u64, usize)| e.0);
        let mut entries: Vec<(K, T)> = Vec::new();
        let mut i: usize = 0;
        while i < drained.len()
            invariant
                i <= drained@.len(),
                entries@.len() == i,
                before.wf(),
                slot_contents(self.slots) == no_slots(),
                slot_retired(self.slots) == slot_retired(before.slots).union(
                    slot_contents(before.slots).dom(),
                ),
                raws == drained@.map_values(|e: (u64, usize)| e.0),
                raws.to_set() == slot_contents(before.slots).dom(),
                in_slot_order(raws),
                self.rows@.len() == before.rows@.len(),
                forall|j: int|
                    0 <= j < drained@.len() ==> #[trigger] drained@[j].1 == slot_contents(
                        before.slots,
                    )[drained@[j].0],
                forall|j: int|
                    i <= j < drained@.len() ==> self.rows@[#[trigger] drained@[j].1 as int]
                        == before.rows@[drained@[j].1 as int],
                forall|j: int|
                    0 <= j < i ==> #[trigger] entries@[j].0 == K::of(SlotKey { raw: drained@[j].0 })
                        && Some(entries@[j].1) == before.rows@[drained@[j].1 as int],
            decreases drained@.len() - i,
        {
            proof {
                assert forall|j: int| 0 <= j < raws.len() implies slot_contents(
                    before.slots,
                ).dom().contains(#[trigger] raws[j]) by {
                    assert(raws.to_set().contains(raws[j]));
                }
                assert(raws[i as int] == drained@[i as int].0);
                assert forall|j: int| i < j < drained@.len() implies #[trigger] drained@[j].1
                    != drained@[i as int].1 && drained@[j].1 < before.rows@.len() by {
                    assert(raws[j] == drained@[j].0);
                    assert(slot_contents(before.slots).dom().contains(raws[j]));
                    assert(slot_contents(before.slots).dom().contains(raws[i as int]));
                    assert(slot_index(raws[i as int]) < slot_index(raws[j]));
                }
            }
            let raw: u64 = drained[i].0;
            let row: usize = drained[i].1;
            let taken = self.rows[row].take();
            if let Some(entity) = taken {
                entries.push((K::of_slot(SlotKey { raw }), entity));
            }
            i = i + 1;
        }
        self.rows.clear();
        self.spare.clear();
        proof {
            let keys = entries@.map_values(|e: (K, T)| e.0);
            before.lemma_keys(raws, keys);
            assert(self@ =~= Map::<K, T>::empty());
            assert forall|j: int| 0 <= j < entries@.len() implies before@.dom().contains(
                #[trigger] entries@[j].0,
            ) && entries@[j].1 == before@[entries@[j].0] by {
                assert(keys[j] == entries@[j].0);
                assert(keys.to_set().contains(keys[j]));
                entries@[j].0.lemma_renaming(SlotKey { raw: drained@[j].0 });
            }
        }
        entries
    }

    /// Only so many keys are live.
    pub proof fn lemma_finite(&self)
        requires
            self.wf(),
        ensures
            self@.dom().finite(),
            self@.dom().len() <= SLOT_LIMIT,
    {
        self.lemma_len();
    }

    /// The live keys can be put in the order of their slots.
    pub proof fn lemma_key_order(&self)
        requires
            self.wf(),
        ensures
            in_key_order(key_order(self@.dom())),
            key_order(self@.dom()).to_set() == self@.dom(),
            key_order(self@.dom()).len() == self@.dom().len(),
    {
        self.lemma_len();
        assert forall|a: K, b: K|
            self@.dom().contains(a) && self@.dom().contains(b) && slot_index(
                #[trigger] a.slot().raw(),
            ) == slot_index(#[trigger] b.slot().raw()) implies a == b by {
            let live = slot_contents(self.slots);
            assert(live.dom().contains(a.slot().raw()) && live.dom().contains(b.slot().raw()));
            a.lemma_renaming(a.slot());
            b.lemma_renaming(b.slot());
        }
        let order = lemma_order_exists(self@.dom());
        lemma_key_order_unique(order, self@.dom());
        lemma_in_order_distinct(order);
        order.unique_seq_to_set();
    }

    /// Renaming the slot keys in order gives the keys of the view in order.
    proof fn lemma_keys(&self, raws: Seq<u64>, keys: Seq<K>)
        requires
            self.wf(),
            raws.to_set() == slot_contents(self.slots).dom(),
            in_slot_order(raws),
            keys.len() == raws.len(),
            forall|j: int|
                0 <= j < keys.len() ==> #[trigger] keys[j] == K::of(SlotKey { raw: raws[j] }),
        ensures
            keys == key_order(self@.dom()),
            keys.no_duplicates(),
            keys.to_set() == self@.dom(),
            keys.len() == self@.dom().len(),
    {
        assert forall|j: int| 0 <= j < keys.len() implies #[trigger] keys[j].slot().raw()
            == raws[j] by {
            keys[j].lemma_renaming(SlotKey { raw: raws[j] });
        }
        assert(in_key_order(keys));
        assert forall|key: K| keys.to_set().contains(key) <==> self@.dom().contains(key) by {
            key.lemma_renaming(key.slot());
            if keys.to_set().contains(key) {
                let j = choose|j: int| 0 <= j < keys.len() && keys[j] == key;
                assert(raws.to_set().contains(raws[j]));
            }
            if self@.dom().contains(key) {
                assert(raws.to_set().contains(key.slot().raw()));
                let j = choose|j: int| 0 <= j < raws.len() && raws[j] == key.slot().raw();
                assert(keys[j] == key);
            }
        }
        assert(keys.to_set() =~= self@.dom());
        lemma_key_order_unique(keys, self@.dom());
        lemma_in_order_distinct(keys);
        keys.unique_seq_to_set();
    }

    /// The view has as many keys as the slot map.
    proof fn lemma_len(&self)
        requires
            self.wf(),
        ensures
            self@.dom().finite(),
            self@.dom().len() == slot_contents(self.slots).dom().len(),
    {
        let raws = slot_contents(self.slots).dom();
        let f = |raw: u64| K::of(SlotKey { raw });
        assert forall|a: u64, b: u64| raws.contains(a) && raws.contains(b) && #[trigger] f(a)
            == #[trigger] f(b) implies a == b by {
            f(a).lemma_renaming(SlotKey { raw: a });
            f(a).lemma_renaming(SlotKey { raw: b });
        }
        assert(vstd::relations::injective_on(f, raws));
        vstd::set_lib::lemma_map_size(raws, raws.map(f), f);
        assert forall|key: K| self@.dom().contains(key) <==> raws.map(f).contains(key) by {
            key.lemma_renaming(key.slot());
            if self@.dom().contains(key) {
                assert(f(key.slot().raw()) == key);
            }
            if raws.map(f).contains(key) {
                let raw = choose|raw: u64| raws.contains(raw) && key == f(raw);
                key.lemma_renaming(SlotKey { raw });
            }
        }
        assert(self@.dom() =~= raws.map(f));
    }
}

} // verus!
