use vstd::prelude::*;

use crate::id::str_eq;

verus! {

/// The index of the slot keyed `key`, if there is one.
pub open spec fn key_index<T>(slots: Seq<(Seq<char>, T, bool)>, key: Seq<char>) -> Option<int> {
    if exists|i: int| 0 <= i < slots.len() && #[trigger] slots[i].0 == key {
        Some(choose|i: int| 0 <= i < slots.len() && #[trigger] slots[i].0 == key)
    } else {
        None
    }
}

/// The index of the oldest slot that is not held, if there is one.
pub open spec fn oldest_unheld<T>(slots: Seq<(Seq<char>, T, bool)>) -> Option<int> {
    if exists|i: int| 0 <= i < slots.len() && !(#[trigger] slots[i]).2 {
        Some(
            choose|i: int|
                0 <= i < slots.len() && !(#[trigger] slots[i]).2 && forall|j: int|
                    0 <= j < i ==> (#[trigger] slots[j]).2,
        )
    } else {
        None
    }
}

/// Some slot is not held only if there is an oldest such slot.
pub proof fn lemma_oldest_unheld<T>(slots: Seq<(Seq<char>, T, bool)>, w: int)
    requires
        0 <= w < slots.len(),
        !slots[w].2,
    ensures
        oldest_unheld(slots) matches Some(v) && 0 <= v < slots.len() && !slots[v].2 && forall|j: int|
            0 <= j < v ==> (#[trigger] slots[j]).2,
    decreases w,
{
    if exists|j: int| 0 <= j < w && !(#[trigger] slots[j]).2 {
        let j = choose|j: int| 0 <= j < w && !(#[trigger] slots[j]).2;
        lemma_oldest_unheld(slots, j);
    } else {
        assert(0 <= w < slots.len() && !slots[w].2 && forall|j: int| 0 <= j < w ==> (#[trigger] slots[j]).2);
    }
}

/// The slots after writing `value` under `key` into a scratchpad of
/// `capacity` slots, or `None` when the write is refused.
pub open spec fn updated<T>(slots: Seq<(Seq<char>, T, bool)>, capacity: int, key: Seq<char>, value: T) -> Option<
    Seq<(Seq<char>, T, bool)>,
> {
    match key_index(slots, key) {
        Some(p) => Some(slots.update(p, (key, value, slots[p].2))),
        None => if slots.len() < capacity {
            Some(slots.push((key, value, false)))
        } else {
            match oldest_unheld(slots) {
                Some(v) => Some(slots.remove(v).push((key, value, false))),
                None => None,
            }
        },
    }
}

/// The slots with the hold flag of `key` set to `held`.
pub open spec fn with_hold<T>(slots: Seq<(Seq<char>, T, bool)>, key: Seq<char>, held: bool) -> Seq<(Seq<char>, T, bool)> {
    match key_index(slots, key) {
        Some(p) => slots.update(p, (slots[p].0, slots[p].1, held)),
        None => slots,
    }
}

/// Keys are distinct.
pub open spec fn distinct_keys<T>(slots: Seq<(Seq<char>, T, bool)>) -> bool {
    forall|i: int, j: int| 0 <= i < j < slots.len() ==> (#[trigger] slots[i]).0 != (#[trigger] slots[j]).0
}

struct Slot<T> {
    key: String,
    value: T,
    held: bool,
}

impl<T> View for Slot<T> {
    type V = (Seq<char>, T, bool);

    closed spec fn view(&self) -> (Seq<char>, T, bool) {
        (self.key@, self.value, self.held)
    }
}

/// A bounded scratchpad of named slots: a slot is written (UPDATE) as
/// evidence arrives and can be held (HOLD) so that it survives eviction.
pub struct WorkingMemory<T> {
    capacity: usize,
    slots: Vec<Slot<T>>,
}

impl<T> View for WorkingMemory<T> {
    type V = Seq<(Seq<char>, T, bool)>;

    /// The slots in insertion order: key, value, and whether it is held.
    closed spec fn view(&self) -> Seq<(Seq<char>, T, bool)> {
        self.slots@.map_values(|s: Slot<T>| s@)
    }
}

impl<T> WorkingMemory<T> {
    /// At least one slot, no more slots than that, and distinct keys.
    pub open spec fn wf(&self) -> bool {
        &&& self.spec_capacity() >= 1
        &&& self@.len() <= self.spec_capacity()
        &&& distinct_keys(self@)
    }

    pub closed spec fn spec_capacity(&self) -> usize {
        self.capacity
    }

    /// A scratchpad bounded to `capacity` slots, at least one.
    pub fn new(capacity: usize) -> (r: Self)
        ensures
            r.wf(),
            r.spec_capacity() == if capacity < 1 {
                1
            } else {
                capacity
            },
            r@ == Seq::<(Seq<char>, T, bool)>::empty(),
    {
        let r = WorkingMemory { capacity: if capacity < 1 {
            1
        } else {
            capacity
        }, slots: Vec::new() };
        assert(r@ =~= Seq::<(Seq<char>, T, bool)>::empty());
        r
    }

    pub fn capacity(&self) -> (r: usize)
        ensures
            r == self.spec_capacity(),
    {
        self.capacity
    }

    pub fn len(&self) -> (r: usize)
        ensures
            r == self@.len(),
    {
        self.slots.len()
    }

    pub fn is_empty(&self) -> (r: bool)
        ensures
            r == (self@.len() == 0),
    {
        self.slots.len() == 0
    }

    fn position(&self, key: &str) -> (r: Option<usize>)
        requires
            self.wf(),
        ensures
            match r {
                Some(p) => key_index(self@, key@) == Some(p as int) && p < self@.len(),
                None => key_index(self@, key@) is None,
            },
    {
        let mut i: usize = 0;
        while i < self.slots.len()
            invariant
                self.wf(),
                i <= self@.len(),
                forall|j: int| 0 <= j < i ==> (#[trigger] self@[j]).0 != key@,
            decreases self@.len() - i,
        {
            assert(self@[i as int] == self.slots@[i as int]@);
            if str_eq(self.slots[i].key.as_str(), key) {
                proof {
                    assert(self@[i as int].0 == key@);
                    let c = choose|k: int| 0 <= k < self@.len() && #[trigger] self@[k].0 == key@;
                    if c != i {
                        if c < i {
                            assert(self@[c].0 != key@);
                        } else {
                            assert(self@[i as int].0 != self@[c].0);
                        }
                    }
                }
                return Some(i);
            }
            i = i + 1;
        }
        None
    }

    fn first_unheld(&self) -> (r: Option<usize>)
        ensures
            match r {
                Some(v) => oldest_unheld(self@) == Some(v as int) && v < self@.len(),
                None => oldest_unheld(self@) is None,
            },
    {
        let mut i: usize = 0;
        while i < self.slots.len()
            invariant
                i <= self@.len(),
                forall|j: int| 0 <= j < i ==> (#[trigger] self@[j]).2,
            decreases self@.len() - i,
        {
            assert(self@[i as int] == self.slots@[i as int]@);
            if !self.slots[i].held {
                proof {
                    let c = choose|k: int|
                        0 <= k < self@.len() && !(#[trigger] self@[k]).2 && forall|j: int|
                            0 <= j < k ==> (#[trigger] self@[j]).2;
                    assert(0 <= i < self@.len() && !self@[i as int].2 && forall|j: int|
                        0 <= j < i ==> (#[trigger] self@[j]).2);
                    if c < i {
                        assert(self@[c].2);
                    } else if c > i {
                        assert(self@[i as int].2);
                    }
                }
                return Some(i);
            }
            i = i + 1;
        }
        None
    }

    /// UPDATE: write `value` under `key`. An existing slot is overwritten in
    /// place, keeping its hold. A new key at capacity evicts the oldest slot
    /// that is not held; when every slot is held the write is refused. Returns
    /// whether the value is now stored.
    pub fn update(&mut self, key: &str, value: T) -> (r: bool)
        requires
            old(self).wf(),
        ensures
            final(self).wf(),
            final(self).spec_capacity() == old(self).spec_capacity(),
            r == updated(old(self)@, old(self).spec_capacity() as int, key@, value) is Some,
            final(self)@ == match updated(old(self)@, old(self).spec_capacity() as int, key@, value) {
                Some(s) => s,
                None => old(self)@,
            },
            key_index(old(self)@, key@) matches Some(p) ==> {
                &&& r
                &&& final(self)@.len() == old(self)@.len()
                &&& final(self)@[p] == (key@, value, old(self)@[p].2)
                &&& forall|i: int| 0 <= i < old(self)@.len() && i != p ==> #[trigger] final(self)@[i] == old(self)@[i]
            },
    {
        if let Some(p) = self.position(key) {
            self.overwrite(p, value);
            return true;
        }
        if self.slots.len() >= self.capacity {
            match self.first_unheld() {
                Some(victim) => self.evict(victim, key),
                None => {
                    return false;
                },
            }
        }
        let ghost mid = self@;
        self.slots.push(Slot { key: String::from_str(key), value, held: false });
        assert(self@ =~= mid.push((key@, value, false)));
        true
    }

    /// Overwrite the value of slot `p`, keeping its key and hold.
    fn overwrite(&mut self, p: usize, value: T)
        requires
            old(self).wf(),
            p < old(self)@.len(),
        ensures
            final(self).wf(),
            final(self).spec_capacity() == old(self).spec_capacity(),
            final(self)@ == old(self)@.update(p as int, (old(self)@[p as int].0, value, old(self)@[p as int].2)),
    {
        let ghost s = self@;
        let ghost old_slots = self.slots@;
        assert(s[p as int] == old_slots[p as int]@);
        let held = self.slots[p].held;
        let key = self.slots[p].key.clone();
        self.slots.set(p, Slot { key, value, held });
        proof {
            let t = s.update(p as int, (s[p as int].0, value, s[p as int].2));
            assert forall|j: int| 0 <= j < s.len() implies #[trigger] self@[j] == t[j] by {
                if j != p {
                    assert(self.slots@[j] == old_slots[j]);
                }
            }
            assert(self@ =~= t);
            assert forall|i: int, j: int| 0 <= i < j < self@.len() implies (#[trigger] self@[i]).0 != (
            #[trigger] self@[j]).0 by {
                assert(s[i].0 != s[j].0);
            }
        }
    }

    /// Evict slot `victim` to make room for the absent key `key`.
    fn evict(&mut self, victim: usize, key: &str)
        requires
            old(self).wf(),
            victim < old(self)@.len(),
            key_index(old(self)@, key@) is None,
        ensures
            final(self).spec_capacity() == old(self).spec_capacity(),
            final(self)@ == old(self)@.remove(victim as int),
            final(self).capacity >= 1,
            distinct_keys(final(self)@),
            key_index(final(self)@, key@) is None,
    {
        let ghost s = self@;
        let ghost before = self.slots@;
        self.slots.remove(victim);
        proof {
            let t = s.remove(victim as int);
            assert forall|j: int| 0 <= j < self@.len() implies #[trigger] self@[j] == t[j] by {
                if j < victim {
                    assert(self.slots@[j] == before[j]);
                } else {
                    assert(self.slots@[j] == before[j + 1]);
                }
            }
            assert(self@ =~= t);
            assert forall|i: int, j: int| 0 <= i < j < t.len() implies (#[trigger] t[i]).0 != (
            #[trigger] t[j]).0 by {
                let a = if i < victim { i } else { i + 1 };
                let b = if j < victim { j } else { j + 1 };
                assert(t[i] == s[a]);
                assert(t[j] == s[b]);
            }
            if exists|i: int| 0 <= i < t.len() && #[trigger] t[i].0 == key@ {
                let i = choose|i: int| 0 <= i < t.len() && #[trigger] t[i].0 == key@;
                let a = if i < victim { i } else { i + 1 };
                assert(t[i] == s[a]);
                assert(s[a].0 == key@);
            }
        }
    }

    fn set_held(&mut self, key: &str, held: bool) -> (r: bool)
        requires
            old(self).wf(),
        ensures
            final(self).wf(),
            final(self).spec_capacity() == old(self).spec_capacity(),
            r == key_index(old(self)@, key@) is Some,
            final(self)@ == with_hold(old(self)@, key@, held),
    {
        let ghost s = self@;
        match self.position(key) {
            Some(p) => {
                let ghost old_slots = self.slots@;
                let mut slot = self.slots.remove(p);
                slot.held = held;
                self.slots.insert(p, slot);
                proof {
                    assert(self@ =~= s.update(p as int, (s[p as int].0, s[p as int].1, held))) by {
                        assert forall|j: int| 0 <= j < s.len() implies #[trigger] self@[j] == s.update(
                            p as int,
                            (s[p as int].0, s[p as int].1, held),
                        )[j] by {
                            if j != p {
                                assert(self.slots@[j] == old_slots[j]);
                            }
                        }
                    }
                    assert forall|i: int, j: int| 0 <= i < j < self@.len() implies (
                    #[trigger] self@[i]).0 != (#[trigger] self@[j]).0 by {
                        assert(s[i].0 != s[j].0);
                    }
                }
                true
            },
            None => false,
        }
    }

    /// HOLD: protect the slot keyed `key` from eviction. Returns whether the
    /// key exists.
    pub fn hold(&mut self, key: &str) -> (r: bool)
        requires
            old(self).wf(),
        ensures
            final(self).wf(),
            final(self).spec_capacity() == old(self).spec_capacity(),
            r == key_index(old(self)@, key@) is Some,
            final(self)@ == with_hold(old(self)@, key@, true),
    {
        self.set_held(key, true)
    }

    /// Release a held slot back to being evictable. Returns whether the key
    /// exists.
    pub fn release(&mut self, key: &str) -> (r: bool)
        requires
            old(self).wf(),
        ensures
            final(self).wf(),
            final(self).spec_capacity() == old(self).spec_capacity(),
            r == key_index(old(self)@, key@) is Some,
            final(self)@ == with_hold(old(self)@, key@, false),
    {
        self.set_held(key, false)
    }

    /// The value stored under `key`.
    pub fn get(&self, key: &str) -> (r: Option<&T>)
        requires
            self.wf(),
        ensures
            match key_index(self@, key@) {
                Some(p) => r == Some(&self@[p].1),
                None => r is None,
            },
    {
        match self.position(key) {
            Some(p) => {
                assert(self@[p as int] == self.slots@[p as int]@);
                Some(&self.slots[p].value)
            },
            None => None,
        }
    }

    /// The value stored under `key`, to change in place.
    pub fn get_mut(&mut self, key: &str) -> (r: Option<&mut T>)
        requires
            old(self).wf(),
        ensures
            final(self).spec_capacity() == old(self).spec_capacity(),
            match key_index(old(self)@, key@) {
                Some(p) => r matches Some(v) && *v == old(self)@[p].1 && final(self)@ == old(self)@.update(
                    p,
                    (old(self)@[p].0, *final(v), old(self)@[p].2),
                ),
                None => r is None && final(self)@ == old(self)@,
            },
            final(self).wf(),
    {
        match self.position(key) {
            Some(p) => {
                let ghost s = self@;
                let ghost old_slots = self.slots@;
                assert(s[p as int] == old_slots[p as int]@);
                let slot = &mut self.slots[p];
                Some(&mut slot.value)
            },
            None => None,
        }
    }

    /// Whether the slot keyed `key` exists and is held.
    pub fn is_held(&self, key: &str) -> (r: bool)
        requires
            self.wf(),
        ensures
            r == match key_index(self@, key@) {
                Some(p) => self@[p].2,
                None => false,
            },
    {
        match self.position(key) {
            Some(p) => {
                assert(self@[p as int] == self.slots@[p as int]@);
                self.slots[p].held
            },
            None => false,
        }
    }

    /// Remove the slot keyed `key`, returning its value.
    pub fn remove(&mut self, key: &str) -> (r: Option<T>)
        requires
            old(self).wf(),
        ensures
            final(self).wf(),
            final(self).spec_capacity() == old(self).spec_capacity(),
            match key_index(old(self)@, key@) {
                Some(p) => r == Some(old(self)@[p].1) && final(self)@ == old(self)@.remove(p),
                None => r is None && final(self)@ == old(self)@,
            },
    {
        let ghost s = self@;
        match self.position(key) {
            Some(p) => {
                let ghost before = self.slots@;
                let slot = self.slots.remove(p);
                assert(self@ =~= s.remove(p as int)) by {
                    assert forall|j: int| 0 <= j < self@.len() implies #[trigger] self@[j] == s.remove(
                        p as int,
                    )[j] by {
                        if j < p {
                            assert(self.slots@[j] == before[j]);
                        } else {
                            assert(self.slots@[j] == before[j + 1]);
                        }
                    }
                }
                proof {
                    assert forall|i: int, j: int| 0 <= i < j < self@.len() implies (
                    #[trigger] self@[i]).0 != (#[trigger] self@[j]).0 by {
                        let a = if i < p { i } else { i + 1 };
                        let b = if j < p { j } else { j + 1 };
                        assert(s[a].0 != s[b].0);
                    }
                }
                Some(slot.value)
            },
            None => None,
        }
    }

    /// The `(key, value)` pairs in insertion order.
    pub fn iter(&self) -> (r: Vec<(&str, &T)>)
        ensures
            r@.len() == self@.len(),
            forall|i: int|
                0 <= i < self@.len() ==> (#[trigger] r@[i]).0@ == self@[i].0 && r@[i].1 == &self@[i].1,
            self.wf() ==> forall|i: int, j: int|
                0 <= i < j < r@.len() ==> (#[trigger] r@[i]).0@ != (#[trigger] r@[j]).0@,
    {
        let mut out: Vec<(&str, &T)> = Vec::new();
        let mut i: usize = 0;
        while i < self.slots.len()
            invariant
                i <= self@.len(),
                out@.len() == i,
                forall|k: int| 0 <= k < i ==> (#[trigger] out@[k]).0@ == self@[k].0 && out@[k].1 == &self@[k].1,
            decreases self@.len() - i,
        {
            assert(self@[i as int] == self.slots@[i as int]@);
            out.push((self.slots[i].key.as_str(), &self.slots[i].value));
            i = i + 1;
        }
        out
    }
}

} // verus!
