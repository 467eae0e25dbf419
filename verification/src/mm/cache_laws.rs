//! Laws of the keyed cache: every operation keeps the invariant, an
//! inserted value is found again, and eviction takes exactly one entry.

use crate::mm::cache_state::{
    has_key, is_key, lru_position, sweep, without_key, CacheState, EntryState, ReplacementPolicy,
};
use crate::search::{lemma_first_index, lemma_first_index_is};
use vstd::prelude::*;

verus! {

/// Whether no key occurs twice in `lru`.
pub open spec fn distinct_keys(lru: Seq<Seq<char>>) -> bool {
    forall|i: int, j: int| 0 <= i < j < lru.len() ==> lru[i] != lru[j]
}

/// Taking a key out of an order of use without repeats leaves the other
/// keys, in their order, and only them.
pub proof fn lemma_without_key(lru: Seq<Seq<char>>, key: Seq<char>)
    requires
        distinct_keys(lru),
    ensures
        distinct_keys(without_key(lru, key)),
        !without_key(lru, key).contains(key),
        !lru.contains(key) ==> without_key(lru, key) == lru,
        lru.contains(key) ==> lru_position(lru, key) < lru.len() && without_key(lru, key).len()
            == lru.len() - 1,
        0 <= lru_position(lru, key) <= lru.len(),
        lru_position(lru, key) < lru.len() ==> lru[lru_position(lru, key)] == key,
        forall|x: Seq<char>| x != key ==> (without_key(lru, key).contains(x) <==> lru.contains(x)),
{
    let pred = is_key(lru, key);
    let at = lru_position(lru, key);
    lemma_first_index(lru.len() as int, pred, 0);
    let d = without_key(lru, key);
    if at < lru.len() {
        assert(pred(at));
        assert(lru[at] == key);
        assert forall|k: int| 0 <= k < d.len() implies #[trigger] d[k] != key && lru.contains(
            d[k],
        ) by {
            if k < at {
                assert(d[k] == lru[k]);
            } else {
                assert(d[k] == lru[k + 1]);
            }
        }
        assert forall|x: Seq<char>| x != key && lru.contains(x) implies d.contains(x) by {
            let k = choose|k: int| 0 <= k < lru.len() && lru[k] == x;
            if k < at {
                assert(d[k] == x);
            } else {
                assert(d[k - 1] == x);
            }
        }
        assert forall|k: int, m: int| 0 <= k < m < d.len() implies d[k] != d[m] by {
            let k0 = if k < at {
                k
            } else {
                k + 1
            };
            let m0 = if m < at {
                m
            } else {
                m + 1
            };
            assert(d[k] == lru[k0] && d[m] == lru[m0]);
        }
        assert forall|x: Seq<char>| x != key && d.contains(x) implies lru.contains(x) by {
            let k = choose|k: int| 0 <= k < d.len() && d[k] == x;
            assert(lru.contains(d[k]));
        }
    } else {
        assert forall|k: int| 0 <= k < lru.len() implies lru[k] != key by {
            assert(!pred(k));
        }
    }
}

/// The sweep changes no key and no value, keeps the clock's length and
/// stops within the clock.
pub proof fn lemma_sweep<T>(clock: Seq<EntryState<T>>, hand: int, fuel: nat)
    requires
        0 <= hand < clock.len(),
    ensures
        sweep(clock, hand, fuel).0.len() == clock.len(),
        0 <= sweep(clock, hand, fuel).1 < clock.len(),
        forall|i: int|
            0 <= i < clock.len() ==> (#[trigger] sweep(clock, hand, fuel).0[i]).key == clock[i].key
                && sweep(clock, hand, fuel).0[i].value == clock[i].value,
    decreases fuel,
{
    if fuel > 0 && clock[hand].used {
        let next = clock.update(hand, EntryState { used: false, ..clock[hand] });
        let at = if hand + 1 >= clock.len() {
            0
        } else {
            hand + 1
        };
        lemma_sweep(next, at, (fuel - 1) as nat);
        assert forall|i: int| 0 <= i < clock.len() implies (#[trigger] sweep(
            clock,
            hand,
            fuel,
        ).0[i]).key == clock[i].key && sweep(clock, hand, fuel).0[i].value == clock[i].value by {
            assert(sweep(next, at, (fuel - 1) as nat).0[i].key == next[i].key);
        }
    }
}

impl<T> CacheState<T> {
    /// Where a key is found: at the one position of the clock that holds
    /// it, or nowhere.
    pub proof fn lemma_find(self, key: Seq<char>)
        ensures
            0 <= self.find(key) <= self.clock.len(),
            self.contains(key) ==> self.clock[self.find(key)].key == key,
            forall|i: int| 0 <= i < self.find(key) ==> (#[trigger] self.clock[i]).key != key,
            !self.contains(key) ==> forall|i: int|
                0 <= i < self.clock.len() ==> (#[trigger] self.clock[i]).key != key,
    {
        let pred = has_key(self.clock, key);
        lemma_first_index(self.clock.len() as int, pred, 0);
        if self.contains(key) {
            assert(pred(self.find(key)));
        }
        assert forall|i: int| 0 <= i < self.find(key) implies (#[trigger] self.clock[i]).key
            != key by {
            assert(!pred(i));
        }
    }

    /// In a well-formed cache a key is at position `i` exactly when the
    /// clock holds it there.
    pub proof fn lemma_find_at(self, i: int)
        requires
            self.wf(),
            0 <= i < self.clock.len(),
        ensures
            self.find(self.clock[i].key) == i,
    {
        let key = self.clock[i].key;
        let pred = has_key(self.clock, key);
        assert forall|j: int| 0 <= j < i implies !#[trigger] pred(j) by {
            assert(self.clock[j].key != self.clock[i].key);
        }
        assert(pred(i));
        lemma_first_index_is(self.clock.len() as int, pred, 0, i);
    }

    /// The empty cache is well formed and holds no key.
    pub proof fn law_empty(capacity: nat, policy: ReplacementPolicy, key: Seq<char>)
        ensures
            Self::empty(capacity, policy).wf(),
            !Self::empty(capacity, policy).contains(key),
    {
        Self::empty(capacity, policy).lemma_find(key);
    }

    /// Using a key keeps the invariant and changes nothing but the order
    /// of use.
    pub proof fn law_update_usage(self, key: Seq<char>)
        requires
            self.wf(),
        ensures
            self.update_usage(key).wf(),
            self.update_usage(key).clock == self.clock,
            self.contains(key) ==> self.update_usage(key).lru.len() == self.lru.len()
                && self.update_usage(key).lru.last() == key,
    {
        let t = self.update_usage(key);
        lemma_without_key(self.lru, key);
        self.lemma_find(key);
        if self.contains(key) {
            assert(self.lru.contains(self.clock[self.find(key)].key));
        }
        let at = lru_position(self.lru, key);
        if at < self.lru.len() {
            let d = without_key(self.lru, key);
            assert(t.lru == d.push(key));
            assert forall|i: int, j: int| 0 <= i < j < t.lru.len() implies t.lru[i] != t.lru[j] by {
                if j == d.len() {
                    assert(d.contains(d[i]));
                }
            }
            assert forall|i: int| 0 <= i < t.clock.len() implies t.lru.contains(
                #[trigger] t.clock[i].key,
            ) by {
                let k = t.clock[i].key;
                assert(self.lru.contains(k));
                if k == key {
                    assert(t.lru[d.len() as int] == key);
                } else {
                    assert(d.contains(k));
                    let m = choose|m: int| 0 <= m < d.len() && d[m] == k;
                    assert(t.lru[m] == k);
                }
            }
            assert forall|j: int| 0 <= j < t.lru.len() implies exists|i: int|
                0 <= i < t.clock.len() && t.clock[i].key == #[trigger] t.lru[j] by {
                if j < d.len() {
                    assert(d.contains(d[j]));
                    assert(self.lru.contains(d[j]));
                    let m = choose|m: int| 0 <= m < self.lru.len() && self.lru[m] == d[j];
                    let i1 = choose|i: int|
                        0 <= i < self.clock.len() && self.clock[i].key == self.lru[m];
                    assert(t.clock[i1].key == t.lru[j]);
                } else {
                    assert(self.lru[at] == key);
                    let i1 = choose|i: int|
                        0 <= i < self.clock.len() && self.clock[i].key == self.lru[at];
                    assert(t.clock[i1].key == t.lru[j]);
                }
            }
        }
    }

    /// Taking the entry at a clock position out keeps the invariant; its
    /// key is then not cached, and every other key is, with its value, as
    /// before.
    pub proof fn law_removed(self, at: int)
        requires
            self.wf(),
            0 <= at < self.clock.len(),
        ensures
            self.removed(at).wf(),
            self.removed(at).clock.len() == self.clock.len() - 1,
            !self.removed(at).contains(self.clock[at].key),
            forall|k: Seq<char>|
                k != self.clock[at].key ==> (self.removed(at).contains(k) <==> self.contains(k))
                    && (self.contains(k) ==> self.removed(at).value(k) == self.value(k)),
    {
        let gone = self.clock[at].key;
        let t = self.removed(at);
        lemma_without_key(self.lru, gone);
        assert(self.lru.contains(gone));
        assert forall|i: int, j: int| 0 <= i < j < t.clock.len() implies t.clock[i].key
            != t.clock[j].key by {
            let i0 = if i < at {
                i
            } else {
                i + 1
            };
            let j0 = if j < at {
                j
            } else {
                j + 1
            };
            assert(t.clock[i] == self.clock[i0] && t.clock[j] == self.clock[j0]);
        }
        assert forall|i: int| 0 <= i < t.clock.len() implies t.lru.contains(
            #[trigger] t.clock[i].key,
        ) && t.clock[i].key != gone by {
            let i0 = if i < at {
                i
            } else {
                i + 1
            };
            assert(t.clock[i] == self.clock[i0]);
            assert(self.lru.contains(self.clock[i0].key));
            if i0 < at {
                assert(self.clock[i0].key != self.clock[at].key);
            } else {
                assert(self.clock[at].key != self.clock[i0].key);
            }
        }
        assert forall|j: int| 0 <= j < t.lru.len() implies exists|i: int|
            0 <= i < t.clock.len() && t.clock[i].key == #[trigger] t.lru[j] by {
            assert(t.lru.contains(t.lru[j]));
            assert(self.lru.contains(t.lru[j]));
            let m = choose|m: int| 0 <= m < self.lru.len() && self.lru[m] == t.lru[j];
            let i0 = choose|i: int| 0 <= i < self.clock.len() && self.clock[i].key == self.lru[m];
            if i0 < at {
                assert(t.clock[i0] == self.clock[i0]);
            } else {
                assert(i0 != at);
                assert(t.clock[i0 - 1] == self.clock[i0]);
            }
        }
        assert(t.wf());
        t.lemma_find(gone);
        assert forall|k: Seq<char>| k != gone implies (t.contains(k) <==> self.contains(k)) && (
        self.contains(k) ==> t.value(k) == self.value(k)) by {
            self.lemma_find(k);
            t.lemma_find(k);
            if self.contains(k) {
                let i0 = self.find(k);
                let i1 = if i0 < at {
                    i0
                } else {
                    i0 - 1
                };
                assert(t.clock[i1] == self.clock[i0]);
                t.lemma_find_at(i1);
            }
            if t.contains(k) {
                let i1 = t.find(k);
                let i0 = if i1 < at {
                    i1
                } else {
                    i1 + 1
                };
                assert(t.clock[i1] == self.clock[i0]);
                self.lemma_find_at(i0);
            }
        }
    }

    /// Eviction keeps the invariant and takes exactly one entry from a
    /// cache that has one; every key that stays keeps its value.
    pub proof fn law_evict(self)
        requires
            self.wf(),
        ensures
            self.evict_lru().wf(),
            self.evict_clock().wf(),
            self.make_room().wf(),
            self.clock.len() > 0 ==> self.evict_lru().clock.len() == self.clock.len() - 1
                && self.evict_clock().clock.len() == self.clock.len() - 1
                && !self.evict_lru().contains(self.lru[0]),
            self.clock.len() == 0 ==> self.evict_lru() == self && self.evict_clock() == self,
            forall|k: Seq<char>| self.evict_lru().contains(k) ==> self.contains(k)
                && self.evict_lru().value(k) == self.value(k),
            forall|k: Seq<char>| self.evict_clock().contains(k) ==> self.contains(k)
                && self.evict_clock().value(k) == self.value(k),
            forall|k: Seq<char>| self.make_room().contains(k) ==> self.contains(k)
                && self.make_room().value(k) == self.value(k),
            self.make_room().clock.len() <= self.clock.len(),
            self.clock.len() >= self.capacity && self.clock.len() > 0
                ==> self.make_room().clock.len() == self.clock.len() - 1,
            self.clock.len() < self.capacity ==> self.make_room() == self,
    {
        if self.clock.len() > 0 {
            assert(self.lru.contains(self.clock[0].key));
            let first = self.lru[0];
            let i0 = choose|i: int| 0 <= i < self.clock.len() && self.clock[i].key == first;
            self.lemma_find_at(i0);
            self.law_removed(i0);
            assert forall|k: Seq<char>| self.evict_lru().contains(k) implies self.contains(k)
                && self.evict_lru().value(k) == self.value(k) by {
                if k == first {
                    assert(!self.evict_lru().contains(k));
                }
            }
            let (clock, at) = sweep(self.clock, self.hand as int, self.clock.len());
            lemma_sweep(self.clock, self.hand as int, self.clock.len());
            let swept = CacheState { clock, hand: at as nat, ..self };
            assert(swept.wf()) by {
                assert forall|i: int| 0 <= i < swept.clock.len() implies swept.lru.contains(
                    #[trigger] swept.clock[i].key,
                ) by {
                    assert(self.lru.contains(self.clock[i].key));
                }
                assert forall|j: int| 0 <= j < swept.lru.len() implies exists|i: int|
                    0 <= i < swept.clock.len() && swept.clock[i].key == #[trigger] swept.lru[j] by {
                    let i1 = choose|i: int|
                        0 <= i < self.clock.len() && self.clock[i].key == self.lru[j];
                    assert(swept.clock[i1].key == self.clock[i1].key);
                }
            }
            swept.law_removed(at);
            assert forall|k: Seq<char>| self.evict_clock().contains(k) implies self.contains(k)
                && self.evict_clock().value(k) == self.value(k) by {
                swept.lemma_find(k);
                self.lemma_find(k);
                if k == swept.clock[at].key {
                    assert(!self.evict_clock().contains(k));
                } else {
                    assert(swept.contains(k));
                    let i1 = swept.find(k);
                    assert(self.clock[i1].key == k);
                    self.lemma_find_at(i1);
                }
            }
        } else {
            if self.lru.len() > 0 {
                let i0 = choose|i: int| 0 <= i < self.clock.len() && self.clock[i].key == self.lru[0];
            }
        }
    }

    /// An inserted value is found again. Inserting keeps the invariant;
    /// afterwards the key is cached with the value inserted; a cache that
    /// had the key keeps all its keys, and one that did not holds no more
    /// entries than before unless it was below its capacity, and never more
    /// than one beyond those it kept.
    pub proof fn law_insert(self, key: Seq<char>, value: T)
        requires
            self.wf(),
        ensures
            self.insert(key, value).wf(),
            self.insert(key, value).contains(key),
            self.insert(key, value).value(key) == value,
            self.insert(key, value).lru.len() > 0 && self.insert(key, value).lru.last() == key,
            self.contains(key) ==> self.insert(key, value).clock.len() == self.clock.len(),
            !self.contains(key) ==> self.insert(key, value).clock.len()
                == self.make_room().clock.len() + 1,
            forall|k: Seq<char>| k != key && self.insert(key, value).contains(k)
                ==> self.contains(k) && self.insert(key, value).value(k) == self.value(k),
            forall|k: Seq<char>| k != key && self.contains(key) && self.contains(k)
                ==> self.insert(key, value).contains(k),
    {
        let t = self.insert(key, value);
        self.lemma_find(key);
        if self.contains(key) {
            let at = self.find(key);
            self.law_update_usage(key);
            let s = self.update_usage(key);
            assert(t.wf()) by {
                assert forall|i: int, j: int| 0 <= i < j < t.clock.len() implies t.clock[i].key
                    != t.clock[j].key by {
                    assert(s.clock[i].key != s.clock[j].key);
                }
                assert forall|i: int| 0 <= i < t.clock.len() implies t.lru.contains(
                    #[trigger] t.clock[i].key,
                ) by {
                    assert(s.lru.contains(s.clock[i].key));
                }
                assert forall|j: int| 0 <= j < t.lru.len() implies exists|i: int|
                    0 <= i < t.clock.len() && t.clock[i].key == #[trigger] t.lru[j] by {
                    let i1 = choose|i: int| 0 <= i < s.clock.len() && s.clock[i].key == s.lru[j];
                    assert(t.clock[i1].key == s.clock[i1].key);
                }
            }
            t.lemma_find_at(at);
            assert forall|k: Seq<char>| k != key implies (t.contains(k) <==> self.contains(k)) && (
            self.contains(k) ==> t.value(k) == self.value(k)) by {
                self.lemma_find(k);
                t.lemma_find(k);
                if self.contains(k) {
                    assert(t.clock[self.find(k)].key == k);
                    t.lemma_find_at(self.find(k));
                }
                if t.contains(k) {
                    assert(self.clock[t.find(k)].key == k);
                    self.lemma_find_at(t.find(k));
                }
            }
        } else {
            self.law_evict();
            let s = self.make_room();
            s.lemma_find(key);
            assert(!s.contains(key));
            let n = s.clock.len() as int;
            assert(t.wf()) by {
                assert forall|i: int, j: int| 0 <= i < j < t.clock.len() implies t.clock[i].key
                    != t.clock[j].key by {
                    if j == n {
                        assert(s.clock[i].key != key);
                    }
                }
                assert forall|i: int, j: int| 0 <= i < j < t.lru.len() implies t.lru[i]
                    != t.lru[j] by {
                    if j == s.lru.len() {
                        let i1 = choose|i1: int|
                            0 <= i1 < s.clock.len() && s.clock[i1].key == s.lru[i];
                        assert(s.clock[i1].key != key);
                    }
                }
                assert forall|i: int| 0 <= i < t.clock.len() implies t.lru.contains(
                    #[trigger] t.clock[i].key,
                ) by {
                    if i < n {
                        assert(s.lru.contains(s.clock[i].key));
                        let m = choose|m: int| 0 <= m < s.lru.len() && s.lru[m] == s.clock[i].key;
                        assert(t.lru[m] == s.lru[m]);
                    } else {
                        assert(t.lru[s.lru.len() as int] == key);
                    }
                }
                assert forall|j: int| 0 <= j < t.lru.len() implies exists|i: int|
                    0 <= i < t.clock.len() && t.clock[i].key == #[trigger] t.lru[j] by {
                    if j < s.lru.len() {
                        let i1 = choose|i: int|
                            0 <= i < s.clock.len() && s.clock[i].key == s.lru[j];
                        assert(t.clock[i1] == s.clock[i1]);
                    } else {
                        assert(t.clock[n].key == key);
                    }
                }
            }
            t.lemma_find_at(n);
            assert forall|k: Seq<char>| k != key && t.contains(k) implies self.contains(k)
                && t.value(k) == self.value(k) by {
                t.lemma_find(k);
                s.lemma_find(k);
                let i1 = t.find(k);
                assert(i1 < n);
                assert(s.clock[i1] == t.clock[i1]);
                s.lemma_find_at(i1);
            }
        }
    }

    /// Looking a key up keeps the invariant, the keys and the values; a
    /// cached key is then marked used and is the most recently used.
    pub proof fn law_touch(self, key: Seq<char>)
        requires
            self.wf(),
        ensures
            self.touch(key).wf(),
            self.touch(key).clock.len() == self.clock.len(),
            !self.contains(key) ==> self.touch(key) == self,
            self.contains(key) ==> self.touch(key).clock[self.find(key)].used && self.touch(
                key,
            ).lru.last() == key,
            forall|k: Seq<char>|
                (self.touch(key).contains(k) <==> self.contains(k)) && (self.contains(k)
                    ==> self.touch(key).value(k) == self.value(k)),
    {
        self.lemma_find(key);
        if self.contains(key) {
            let at = self.find(key);
            let marked = CacheState {
                clock: self.clock.update(at, EntryState { used: true, ..self.clock[at] }),
                ..self
            };
            assert(marked.wf()) by {
                assert forall|i: int, j: int| 0 <= i < j < marked.clock.len() implies marked.clock[i].key
                    != marked.clock[j].key by {
                    assert(self.clock[i].key != self.clock[j].key);
                }
                assert forall|i: int| 0 <= i < marked.clock.len() implies marked.lru.contains(
                    #[trigger] marked.clock[i].key,
                ) by {
                    assert(self.lru.contains(self.clock[i].key));
                }
                assert forall|j: int| 0 <= j < marked.lru.len() implies exists|i: int|
                    0 <= i < marked.clock.len() && marked.clock[i].key
                        == #[trigger] marked.lru[j] by {
                    let i1 = choose|i: int|
                        0 <= i < self.clock.len() && self.clock[i].key == self.lru[j];
                    assert(marked.clock[i1].key == self.clock[i1].key);
                }
            }
            marked.lemma_find_at(at);
            marked.law_update_usage(key);
            let t = self.touch(key);
            assert forall|k: Seq<char>| (t.contains(k) <==> self.contains(k)) && (self.contains(k)
                ==> t.value(k) == self.value(k)) by {
                self.lemma_find(k);
                t.lemma_find(k);
                if self.contains(k) {
                    assert(t.clock[self.find(k)].key == k);
                    t.lemma_find_at(self.find(k));
                }
                if t.contains(k) {
                    assert(self.clock[t.find(k)].key == k);
                    self.lemma_find_at(t.find(k));
                }
            }
        }
    }
}

} // verus!
