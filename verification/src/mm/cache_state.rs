//! The mathematical model of the keyed cache, and what each cache
//! operation does to it.

use crate::search::first_index;
use vstd::prelude::*;

verus! {

/// How a full cache chooses the entry to give up.
#[derive(Debug, Clone, Copy, PartialEq, Eq, Structural)]
pub enum ReplacementPolicy {
    /// The entry that was used least recently.
    LRU,
    /// Second chance: the clock hand passes entries that were used since it
    /// last came by, clearing their mark, and takes the first one that was
    /// not.
    CLOCK,
}

/// One cached entry as a value.
pub struct EntryState<T> {
    pub key: Seq<char>,
    pub value: T,
    pub used: bool,
}

/// The cache as a value: the entries in clock order (the order in which
/// they came in), the keys in order of use, least recently used first, and
/// the position of the clock hand.
#[verifier::ext_equal]
pub struct CacheState<T> {
    pub capacity: nat,
    pub policy: ReplacementPolicy,
    pub clock: Seq<EntryState<T>>,
    pub lru: Seq<Seq<char>>,
    pub hand: nat,
}

/// The property of a position in `clock` to hold key `key`.
pub open spec fn has_key<T>(clock: Seq<EntryState<T>>, key: Seq<char>) -> spec_fn(int) -> bool {
    |i: int| clock[i].key == key
}

/// The property of a position in `lru` to hold key `key`.
pub open spec fn is_key(lru: Seq<Seq<char>>, key: Seq<char>) -> spec_fn(int) -> bool {
    |i: int| lru[i] == key
}

/// The position of `key` in `lru`, the length of `lru` if it is not there.
pub open spec fn lru_position(lru: Seq<Seq<char>>, key: Seq<char>) -> int {
    first_index(lru.len() as int, is_key(lru, key), 0)
}

/// The order of use without `key`.
pub open spec fn without_key(lru: Seq<Seq<char>>, key: Seq<char>) -> Seq<Seq<char>> {
    let at = lru_position(lru, key);
    if at < lru.len() {
        lru.remove(at)
    } else {
        lru
    }
}

/// The hand after the entry at `victim` left a clock of `len` entries: it
/// stays where it is, pointing at the entry that moved up, unless that is
/// past the end, where it goes back to the start.
pub open spec fn hand_after(hand: nat, len_after: nat) -> nat {
    if hand >= len_after && len_after > 0 {
        0
    } else {
        hand
    }
}

/// The clock sweep: from `hand` on, entries that are marked used lose the
/// mark and are passed, at most `fuel` of them; the result is the clock
/// with the marks cleared and the position where the sweep stopped.
pub open spec fn sweep<T>(clock: Seq<EntryState<T>>, hand: int, fuel: nat) -> (
    Seq<EntryState<T>>,
    int,
)
    decreases fuel,
{
    if fuel == 0 || !clock[hand].used {
        (clock, hand)
    } else {
        sweep(
            clock.update(hand, EntryState { used: false, ..clock[hand] }),
            if hand + 1 >= clock.len() {
                0
            } else {
                hand + 1
            },
            (fuel - 1) as nat,
        )
    }
}

impl<T> CacheState<T> {
    /// The cache invariant: no key occurs twice in the clock or in the
    /// order of use, both hold the same keys, and the hand points at an
    /// entry (at 0 when there is none).
    pub open spec fn wf(self) -> bool {
        &&& forall|i: int, j: int|
            0 <= i < j < self.clock.len() ==> self.clock[i].key != self.clock[j].key
        &&& forall|i: int, j: int| 0 <= i < j < self.lru.len() ==> self.lru[i] != self.lru[j]
        &&& forall|i: int|
            0 <= i < self.clock.len() ==> self.lru.contains(#[trigger] self.clock[i].key)
        &&& forall|j: int|
            0 <= j < self.lru.len() ==> exists|i: int|
                0 <= i < self.clock.len() && self.clock[i].key == #[trigger] self.lru[j]
        &&& (self.hand < self.clock.len() || (self.clock.len() == 0 && self.hand == 0))
    }

    /// The empty cache.
    pub open spec fn empty(capacity: nat, policy: ReplacementPolicy) -> CacheState<T> {
        CacheState { capacity, policy, clock: Seq::empty(), lru: Seq::empty(), hand: 0 }
    }

    /// The position of `key` in the clock, the clock's length if it is
    /// not cached.
    pub open spec fn find(self, key: Seq<char>) -> int {
        first_index(self.clock.len() as int, has_key(self.clock, key), 0)
    }

    /// Whether `key` is cached.
    pub open spec fn contains(self, key: Seq<char>) -> bool {
        self.find(key) < self.clock.len()
    }

    /// The value cached under `key`.
    pub open spec fn value(self, key: Seq<char>) -> T
        recommends
            self.contains(key),
    {
        self.clock[self.find(key)].value
    }

    /// The cache after `key` was used: it becomes the most recently used
    /// key, if it is in the order of use at all.
    pub open spec fn update_usage(self, key: Seq<char>) -> CacheState<T> {
        let at = lru_position(self.lru, key);
        if at < self.lru.len() {
            CacheState { lru: self.lru.remove(at).push(key), ..self }
        } else {
            self
        }
    }

    /// The cache without the entry at clock position `at`.
    pub open spec fn removed(self, at: int) -> CacheState<T> {
        CacheState {
            clock: self.clock.remove(at),
            lru: without_key(self.lru, self.clock[at].key),
            hand: hand_after(self.hand, (self.clock.len() - 1) as nat),
            ..self
        }
    }

    /// Eviction by least recent use: the least recently used key leaves
    /// the cache; an empty cache stays as it is.
    pub open spec fn evict_lru(self) -> CacheState<T> {
        if self.lru.len() == 0 {
            self
        } else {
            let at = self.find(self.lru[0]);
            if at < self.clock.len() {
                self.removed(at)
            } else {
                CacheState { lru: self.lru.drop_first(), ..self }
            }
        }
    }

    /// Eviction by the clock: the hand sweeps on from where it stands,
    /// clearing the marks of the entries it passes, and the entry at which
    /// it stops leaves the cache; an empty cache stays as it is.
    pub open spec fn evict_clock(self) -> CacheState<T> {
        if self.clock.len() == 0 {
            self
        } else {
            let (clock, at) = sweep(self.clock, self.hand as int, self.clock.len());
            (CacheState { clock, hand: at as nat, ..self }).removed(at)
        }
    }

    /// The cache after room was made for a new entry: a cache that holds
    /// as many entries as its capacity, or more, gives one up by its
    /// policy.
    pub open spec fn make_room(self) -> CacheState<T> {
        if self.clock.len() >= self.capacity {
            match self.policy {
                ReplacementPolicy::LRU => self.evict_lru(),
                ReplacementPolicy::CLOCK => self.evict_clock(),
            }
        } else {
            self
        }
    }

    /// Inserting `value` under `key`. A cached key gets the new value and
    /// becomes the most recently used. A new key comes in behind all
    /// others, in the clock and in the order of use, marked used, after
    /// room was made for it.
    pub open spec fn insert(self, key: Seq<char>, value: T) -> CacheState<T> {
        let at = self.find(key);
        if at < self.clock.len() {
            let s = self.update_usage(key);
            CacheState { clock: s.clock.update(at, EntryState { value, ..s.clock[at] }), ..s }
        } else {
            let s = self.make_room();
            CacheState {
                clock: s.clock.push(EntryState { key, value, used: true }),
                lru: s.lru.push(key),
                ..s
            }
        }
    }

    /// Looking up `key`: a cached key is marked used and becomes the most
    /// recently used; the cache stays as it is for any other key.
    pub open spec fn touch(self, key: Seq<char>) -> CacheState<T> {
        let at = self.find(key);
        if at < self.clock.len() {
            (CacheState {
                clock: self.clock.update(at, EntryState { used: true, ..self.clock[at] }),
                ..self
            }).update_usage(key)
        } else {
            self
        }
    }
}

} // verus!
