//! A bounded cache of values under string keys, with least-recently-used
//! or clock replacement.

use crate::mm::cache_state::{
    has_key, is_key, sweep, without_key, CacheState, EntryState, ReplacementPolicy,
};
use crate::search::lemma_first_index_is;
use std::collections::VecDeque;
use vstd::prelude::*;

verus! {

/// One cached value with its key and its clock mark.
pub struct CacheEntry<T> {
    pub key: String,
    pub value: T,
    /// Whether the entry was used since the clock hand last passed it.
    pub used: bool,
}

/// A cache of at most `capacity` values (one, when the capacity is zero),
/// each under a key of its own.
pub struct Cache<T> {
    capacity: usize,
    policy: ReplacementPolicy,
    clock: Vec<CacheEntry<T>>,
    lru: VecDeque<String>,
    clock_hand: usize,
}

/// The model of one entry.
pub open spec fn entry_view<T>(e: CacheEntry<T>) -> EntryState<T> {
    EntryState { key: e.key@, value: e.value, used: e.used }
}

impl<T> View for Cache<T> {
    type V = CacheState<T>;

    closed spec fn view(&self) -> CacheState<T> {
        CacheState {
            capacity: self.capacity as nat,
            policy: self.policy,
            clock: self.clock@.map_values(|e: CacheEntry<T>| entry_view(e)),
            lru: self.lru@.map_values(|k: String| k@),
            hand: self.clock_hand as nat,
        }
    }
}

impl<T> Cache<T> {
    /// The cache invariant; see [`CacheState::wf`].
    pub open spec fn wf(&self) -> bool {
        self@.wf()
    }

    /// An empty cache for `capacity` values with replacement policy
    /// `policy`.
    pub fn new(capacity: usize, policy: ReplacementPolicy) -> (r: Self)
        ensures
            r.wf(),
            r@ == CacheState::<T>::empty(capacity as nat, policy),
    {
        let r = Cache { capacity, policy, clock: Vec::new(), lru: VecDeque::new(), clock_hand: 0 };
        proof {
            assert(r@.clock =~= Seq::<EntryState<T>>::empty());
            assert(r@.lru =~= Seq::<Seq<char>>::empty());
            CacheState::<T>::law_empty(capacity as nat, policy, Seq::empty());
        }
        r
    }

    /// How many values are cached.
    pub fn len(&self) -> (r: usize)
        ensures
            r == self@.clock.len(),
    {
        self.clock.len()
    }

    /// Whether `key` is cached; it is neither marked nor moved.
    pub fn contains_key(&self, key: &str) -> (r: bool)
        ensures
            r == self@.contains(key@),
    {
        let owned = key.to_owned();
        self.find(&owned) < self.clock.len()
    }

    /// The clock position of `key`, the clock's length if it is not
    /// cached.
    fn find(&self, key: &String) -> (r: usize)
        ensures
            r == self@.find(key@),
            r <= self.clock@.len(),
    {
        let n = self.clock.len();
        let mut i: usize = 0;
        while i < n && !(self.clock[i].key == *key)
            invariant
                n == self.clock@.len(),
                i <= n,
                forall|j: int| 0 <= j < i ==> !(#[trigger] has_key(self@.clock, key@)(j)),
            decreases n - i,
        {
            i += 1;
        }
        proof {
            lemma_first_index_is(n as int, has_key(self@.clock, key@), 0, i as int);
        }
        i
    }

    /// Takes `key` out of the order of use, if it is there.
    fn forget(&mut self, key: &String)
        ensures
            final(self)@ == (CacheState { lru: without_key(old(self)@.lru, key@), ..old(self)@ }),
    {
        let n = self.lru.len();
        let mut pos: usize = 0;
        while pos < n && !(self.lru[pos] == *key)
            invariant
                *self == *old(self),
                n == self.lru@.len(),
                pos <= n,
                forall|j: int| 0 <= j < pos ==> !(#[trigger] is_key(self@.lru, key@)(j)),
            decreases n - pos,
        {
            pos += 1;
        }
        proof {
            lemma_first_index_is(n as int, is_key(self@.lru, key@), 0, pos as int);
        }
        if pos < n {
            self.lru.remove(pos);
        }
        assert(self@.lru =~= without_key(old(self)@.lru, key@));
    }

    /// Makes `key` the most recently used, if it is in the order of use.
    fn update_usage(&mut self, key: &String)
        ensures
            final(self)@ == old(self)@.update_usage(key@),
    {
        let n = self.lru.len();
        let mut pos: usize = 0;
        while pos < n && !(self.lru[pos] == *key)
            invariant
                *self == *old(self),
                n == self.lru@.len(),
                pos <= n,
                forall|j: int| 0 <= j < pos ==> !(#[trigger] is_key(self@.lru, key@)(j)),
            decreases n - pos,
        {
            pos += 1;
        }
        proof {
            lemma_first_index_is(n as int, is_key(self@.lru, key@), 0, pos as int);
        }
        if pos < n {
            self.lru.remove(pos);
            self.lru.push_back(key.clone());
            assert(self@.lru =~= old(self)@.update_usage(key@).lru);
        }
    }

    /// Takes the entry at clock position `at` out of the cache.
    fn remove_at(&mut self, at: usize)
        requires
            at < old(self)@.clock.len(),
        ensures
            final(self)@ == old(self)@.removed(at as int),
    {
        let entry = self.clock.remove(at);
        if self.clock_hand >= self.clock.len() && self.clock.len() > 0 {
            self.clock_hand = 0;
        }
        proof {
            assert(self@.clock =~= old(self)@.clock.remove(at as int));
        }
        self.forget(&entry.key);
    }

    /// Gives up the least recently used entry.
    fn evict_lru(&mut self)
        requires
            old(self).wf(),
        ensures
            final(self)@ == old(self)@.evict_lru(),
    {
        if self.lru.len() == 0 {
            return ;
        }
        let evict_key = self.lru[0].clone();
        let at = self.find(&evict_key);
        if at < self.clock.len() {
            self.remove_at(at);
        } else {
            self.lru.pop_front();
            assert(self@.lru =~= old(self)@.lru.drop_first());
        }
    }

    /// Gives up the entry that the clock hand chooses.
    fn evict_clock(&mut self)
        requires
            old(self).wf(),
        ensures
            final(self)@ == old(self)@.evict_clock(),
    {
        let n = self.clock.len();
        if n == 0 {
            return ;
        }
        let mut fuel: usize = n;
        while fuel > 0 && self.clock[self.clock_hand].used
            invariant
                n == self.clock@.len(),
                n == old(self)@.clock.len(),
                self.clock_hand < n,
                fuel <= n,
                self@.capacity == old(self)@.capacity,
                self@.policy == old(self)@.policy,
                self@.lru == old(self)@.lru,
                sweep(self@.clock, self.clock_hand as int, fuel as nat) == sweep(
                    old(self)@.clock,
                    old(self)@.hand as int,
                    n as nat,
                ),
            decreases fuel,
        {
            let ghost before = self@.clock;
            let hand = self.clock_hand;
            self.clock[hand].used = false;
            proof {
                assert(self@.clock =~= before.update(
                    hand as int,
                    EntryState { used: false, ..before[hand as int] },
                ));
            }
            self.clock_hand = if hand + 1 >= n {
                0
            } else {
                hand + 1
            };
            fuel -= 1;
        }
        let at = self.clock_hand;
        self.remove_at(at);
    }

    /// Caches `value` under `key`; see [`CacheState::insert`]. A key that
    /// is cached gets the new value; a new key may push another entry out.
    pub fn insert(&mut self, key: String, value: T)
        requires
            old(self).wf(),
        ensures
            final(self).wf(),
            final(self)@ == old(self)@.insert(key@, value),
    {
        proof {
            old(self)@.law_insert(key@, value);
            old(self)@.law_update_usage(key@);
        }
        let at = self.find(&key);
        if at < self.clock.len() {
            self.update_usage(&key);
            self.clock[at].value = value;
            proof {
                assert(self@.clock =~= old(self)@.insert(key@, value).clock);
            }
            return ;
        }
        if self.clock.len() >= self.capacity {
            match self.policy {
                ReplacementPolicy::LRU => self.evict_lru(),
                ReplacementPolicy::CLOCK => self.evict_clock(),
            }
        }
        let entry = CacheEntry { key: key.clone(), value, used: true };
        self.clock.push(entry);
        self.lru.push_back(key);
        proof {
            assert(self@.clock =~= old(self)@.insert(key@, value).clock);
            assert(self@.lru =~= old(self)@.insert(key@, value).lru);
        }
    }

    /// The value cached under `key`, if there is one; the entry is then
    /// marked used and becomes the most recently used. See
    /// [`CacheState::touch`].
    pub fn get(&mut self, key: &str) -> (r: Option<&T>)
        requires
            old(self).wf(),
        ensures
            final(self).wf(),
            final(self)@ == old(self)@.touch(key@),
            match r {
                Some(v) => old(self)@.contains(key@) && *v == old(self)@.value(key@),
                None => !old(self)@.contains(key@),
            },
    {
        proof {
            old(self)@.law_touch(key@);
        }
        let owned = key.to_owned();
        let at = self.find(&owned);
        if at < self.clock.len() {
            self.clock[at].used = true;
            proof {
                assert(self@.clock =~= old(self)@.clock.update(
                    at as int,
                    EntryState { used: true, ..old(self)@.clock[at as int] },
                ));
            }
            self.update_usage(&owned);
            return Some(&self.clock[at].value);
        }
        None
    }
}

} // verus!
