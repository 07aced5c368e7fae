//! Tables from keys to values, for keys that can be compared.
//!
//! The entries with one digest are chained, and a hash map says where the last
//! of them is.

use std::collections::HashMap;

use vstd::prelude::*;

verus! {

broadcast use vstd::std_specs::hash::group_hash_axioms;

/// Odd, with bits all over.
pub const SPREAD: u64 = 0x9e3779b97f4a7c15;

/// A digest with one more number in it.
pub open spec fn mixed(digest: u64, more: u64) -> u64 {
    digest.wrapping_mul(SPREAD).wrapping_add(more)
}

/// A digest with one more number in it.
pub fn mix(digest: u64, more: u64) -> (all: u64)
    ensures
        all == mixed(digest, more),
{
    digest.wrapping_mul(SPREAD).wrapping_add(more)
}

/// A key that can be compared.
pub trait CacheKey: Sized + Copy {
    /// What a key is looked up by first.
    spec fn code(self) -> u64;

    /// What a key is looked up by first.
    fn digest(&self) -> (code: u64)
        ensures
            code == self.code(),
    ;

    /// Whether two keys are the same.
    fn same(&self, other: &Self) -> (same: bool)
        ensures
            same == (*self == *other),
    ;
}

/// A value under a key.
#[derive(Clone, Copy, Debug)]
struct Entry<K, V> {
    key: K,
    value: V,
    /// How many entries there are up to the one before with the same digest.
    before: usize,
}

/// Entries in chains.
#[derive(Debug)]
struct Chains<K, V> {
    entries: Vec<Entry<K, V>>,
    last: HashMap<u64, usize>,
}

/// What entries come to, the later ones last.
spec fn tabled<K, V>(entries: Seq<Entry<K, V>>) -> Map<K, V>
    decreases entries.len(),
{
    if entries.len() == 0 {
        Map::empty()
    } else {
        tabled(entries.drop_last()).insert(entries.last().key, entries.last().value)
    }
}

/// The last entry of a key says what is under it.
proof fn lemma_tabled<K, V>(entries: Seq<Entry<K, V>>, key: K, i: int)
    requires
        -1 <= i < entries.len(),
        i >= 0 ==> entries[i].key == key,
        forall|j: int| i < j < entries.len() ==> (#[trigger] entries[j]).key != key,
    ensures
        tabled(entries).dom().contains(key) == (i >= 0),
        i >= 0 ==> tabled(entries)[key] == entries[i].value,
    decreases entries.len(),
{
    if entries.len() > 0 && i < entries.len() - 1 {
        let rest = entries.drop_last();
        assert(entries[entries.len() - 1].key != key);
        assert forall|j: int| i < j < rest.len() implies (#[trigger] rest[j]).key != key by {
            assert(rest[j] == entries[j]);
        }
        lemma_tabled(rest, key, i);
    }
}

/// Whether an entry leads to the last one before it with the same digest.
spec fn linked<K: CacheKey, V>(all: Seq<Entry<K, V>>, i: int) -> bool {
    let before = all[i].before as int;
    &&& before <= i
    &&& before > 0 ==> all[before - 1].key.code() == all[i].key.code()
    &&& forall|j: int| before <= j < i ==> (#[trigger] all[j]).key.code() != all[i].key.code()
}

/// Whether the last entry with a digest is the one at a place.
spec fn ends_at<K: CacheKey, V>(all: Seq<Entry<K, V>>, code: u64, place: int) -> bool {
    &&& 0 <= place < all.len()
    &&& all[place].key.code() == code
    &&& forall|j: int| place < j < all.len() ==> (#[trigger] all[j]).key.code() != code
}

impl<K: CacheKey, V: Copy> Chains<K, V> {
    /// Each entry leads to the one before it with the same digest, and the map
    /// to the last of each.
    spec fn wf(self) -> bool {
        let all = self.entries@;
        let last = self.last@;
        &&& forall|i: int| 0 <= i < all.len() ==> #[trigger] linked(all, i)
        &&& forall|i: int|
            0 <= i < all.len() ==> last.dom().contains((#[trigger] all[i]).key.code())
        &&& forall|d: u64| #[trigger]
            last.dom().contains(d) ==> ends_at(all, d, last[d] as int)
    }

    fn new() -> (chains: Self)
        ensures
            chains.wf(),
            tabled(chains.entries@) == Map::<K, V>::empty(),
    {
        Chains { entries: Vec::new(), last: HashMap::new() }
    }

    fn insert(&mut self, key: K, value: V)
        requires
            old(self).wf(),
        ensures
            final(self).wf(),
            tabled(final(self).entries@) == tabled(old(self).entries@).insert(key, value),
    {
        let ghost all = self.entries@;
        let ghost known = self.last@;
        let code: u64 = key.digest();
        let place: usize = self.entries.len();
        let before: usize = match self.last.get(&code) {
            Some(at) => *at + 1,
            None => 0,
        };
        self.entries.push(Entry { key, value, before });
        self.last.insert(code, place);
        proof {
            let now = self.entries@;
            assert(now.drop_last() =~= all);
            assert forall|i: int| 0 <= i < now.len() implies #[trigger] linked(now, i) by {
                if i < place {
                    assert(linked(all, i));
                    assert forall|j: int| now[i].before <= j < i implies (#[trigger] now[j]).key.code()
                        != now[i].key.code() by {
                        assert(now[j] == all[j]);
                    }
                } else {
                    assert forall|j: int| before <= j < i implies (#[trigger] now[j]).key.code()
                        != code by {
                        assert(now[j] == all[j]);
                        assert(known.dom().contains(all[j].key.code()));
                    }
                }
            }
            assert forall|i: int| 0 <= i < now.len() implies self.last@.dom().contains(
                (#[trigger] now[i]).key.code(),
            ) by {
                if i < place {
                    assert(now[i] == all[i]);
                }
            }
            assert forall|d: u64| #[trigger] self.last@.dom().contains(d) implies ends_at(
                now,
                d,
                self.last@[d] as int,
            ) by {
                if d != code {
                    assert(known.dom().contains(d));
                    assert(ends_at(all, d, known[d] as int));
                    assert forall|j: int| known[d] < j < now.len() implies (
                    #[trigger] now[j]).key.code() != d by {
                        if j < place {
                            assert(now[j] == all[j]);
                        }
                    }
                }
            }
        }
    }

    fn get(&self, key: &K) -> (value: Option<V>)
        requires
            self.wf(),
        ensures
            value == (if tabled(self.entries@).dom().contains(*key) {
                Some(tabled(self.entries@)[*key])
            } else {
                None
            }),
    {
        let ghost all = self.entries@;
        let count: usize = self.entries.len();
        let code: u64 = key.digest();
        let mut at: usize = match self.last.get(&code) {
            Some(place) => *place + 1,
            None => 0,
        };
        proof {
            assert forall|j: int| at <= j < all.len() implies (#[trigger] all[j]).key != *key by {
                assert(self.last@.dom().contains(all[j].key.code()));
            }
        }
        while at > 0
            invariant
                self.wf(),
                all == self.entries@,
                code == (*key).code(),
                at <= all.len(),
                forall|j: int| at <= j < all.len() ==> (#[trigger] all[j]).key != *key,
                at > 0 ==> all[at - 1].key.code() == code,
            decreases at,
        {
            let entry = self.entries[at - 1];
            if entry.key.same(key) {
                proof {
                    lemma_tabled(all, *key, at - 1);
                }
                return Some(entry.value);
            }
            assert(linked(all, at - 1));
            at = entry.before;
        }
        proof {
            lemma_tabled(all, *key, -1);
        }
        None
    }
}

/// Values under keys; a later value under the same key takes the place of an
/// earlier one.
#[derive(Debug)]
pub struct Table<K: CacheKey, V: Copy> {
    chains: Chains<K, V>,
}

impl<K: CacheKey, V: Copy> Table<K, V> {
    /// The chains are in order.
    #[verifier::type_invariant]
    spec fn in_order(self) -> bool {
        self.chains.wf()
    }

    /// The value under each key.
    pub closed spec fn view(&self) -> Map<K, V> {
        tabled(self.chains.entries@)
    }

    /// A table without entries.
    pub fn new() -> (table: Self)
        ensures
            table@ == Map::<K, V>::empty(),
    {
        Table { chains: Chains::new() }
    }

    /// Forget everything.
    pub fn clear(&mut self)
        ensures
            final(self)@ == Map::<K, V>::empty(),
    {
        self.chains = Chains::new();
    }

    /// Store a value.
    pub fn insert(&mut self, key: K, value: V)
        ensures
            final(self)@ == old(self)@.insert(key, value),
    {
        proof {
            use_type_invariant(&*self);
        }
        let mut chains = Chains::new();
        core::mem::swap(&mut self.chains, &mut chains);
        chains.insert(key, value);
        self.chains = chains;
    }

    /// The value under a key, if there is one.
    pub fn get(&self, key: &K) -> (value: Option<V>)
        ensures
            value == (if self@.dom().contains(*key) {
                Some(self@[*key])
            } else {
                None
            }),
    {
        proof {
            use_type_invariant(self);
        }
        self.chains.get(key)
    }
}

} // verus!
