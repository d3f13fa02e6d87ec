use vstd::prelude::*;
use crate::hashing::{fresh_seed, slot_of, slot_with_seed};

verus! {

/// Slots per group in a new table.
const INITIAL_CAPACITY: usize = 16;

/// Swaps an eviction walk makes before the table is doubled.
const MAX_LOOP: usize = 100;

/// The load factor a table is created with, in percent.
const LOAD_FACTOR_PERCENT: u64 = 20;

/// `2` to the power `k`.
pub open spec fn pow2(k: nat) -> nat
    decreases k,
{
    if k == 0 {
        1
    } else {
        2 * pow2((k - 1) as nat)
    }
}

/// The number of occupied slots in `s`.
pub open spec fn count_occupied(s: Seq<Option<i64>>) -> nat
    decreases s.len(),
{
    if s.len() == 0 {
        0
    } else {
        count_occupied(s.drop_last()) + if s.last() is Some {
            1nat
        } else {
            0nat
        }
    }
}

proof fn lemma_count_update(s: Seq<Option<i64>>, i: int, v: Option<i64>)
    requires
        0 <= i < s.len(),
    ensures
        count_occupied(s.update(i, v)) + (if s[i] is Some { 1nat } else { 0nat })
            == count_occupied(s) + (if v is Some { 1nat } else { 0nat }),
    decreases s.len(),
{
    let t = s.update(i, v);
    if i == s.len() - 1 {
        assert(t.drop_last() =~= s.drop_last());
    } else {
        assert(t.drop_last() =~= s.drop_last().update(i, v));
        lemma_count_update(s.drop_last(), i, v);
    }
}

proof fn lemma_count_prefix(s: Seq<Option<i64>>, i: int)
    requires
        0 <= i <= s.len(),
    ensures
        count_occupied(s.subrange(0, i)) <= count_occupied(s),
        i < s.len() ==> count_occupied(s.subrange(0, i + 1)) == count_occupied(s.subrange(0, i))
            + if s[i] is Some { 1nat } else { 0nat },
    decreases s.len(),
{
    if i < s.len() {
        assert(s.subrange(0, i + 1).drop_last() =~= s.subrange(0, i));
        if i + 1 < s.len() {
            assert(s.drop_last().subrange(0, i + 1) =~= s.subrange(0, i + 1));
            lemma_count_prefix(s.drop_last(), i + 1);
        } else {
            assert(s.subrange(0, i + 1) =~= s);
        }
    } else {
        assert(s.subrange(0, i) =~= s);
    }
}

proof fn lemma_count_empty(s: Seq<Option<i64>>)
    requires
        forall|i: int| 0 <= i < s.len() ==> s[i] is None,
    ensures
        count_occupied(s) == 0,
    decreases s.len(),
{
    if s.len() > 0 {
        lemma_count_empty(s.drop_last());
    }
}

/// An operation on a set of values.
pub enum SetOp {
    Insert(i64),
    Remove(i64),
    Contains(i64),
}

/// What `op` does to a plain set `s`: the set afterwards and the answer.
pub open spec fn reference_step(s: Set<i64>, op: SetOp) -> (Set<i64>, bool) {
    match op {
        SetOp::Insert(x) => (s.insert(x), !s.contains(x)),
        SetOp::Remove(x) => (s.remove(x), s.contains(x)),
        SetOp::Contains(x) => (s, s.contains(x)),
    }
}

/// The plain set after every operation of `ops`, in order, from `s`.
pub open spec fn reference_run(s: Set<i64>, ops: Seq<SetOp>) -> Set<i64>
    decreases ops.len(),
{
    if ops.len() == 0 {
        s
    } else {
        reference_step(reference_run(s, ops.drop_last()), ops.last()).0
    }
}

/// `post` and the answer `r` are what `op` gives on `pre`: the set moves as
/// the plain set does, and the size follows it.
pub open spec fn table_step(pre: CuckooHashTable, op: SetOp, r: bool, post: CuckooHashTable) -> bool {
    &&& post.wf()
    &&& post@ == reference_step(pre@, op).0
    &&& r == reference_step(pre@, op).1
    &&& post.spec_size() as int == pre.spec_size() as int + (if r && op is Insert {
        1int
    } else {
        0int
    }) - (if r && op is Remove {
        1int
    } else {
        0int
    })
}

/// A set of `i64` values stored by cuckoo hashing. Each value lives in its
/// candidate slot of group 0 or in its candidate slot of group 1; the two
/// candidate slots come from two independently seeded hash functions.
pub struct CuckooHashTable {
    group0: Vec<Option<i64>>,
    group1: Vec<Option<i64>>,
    /// Values that found no slot once the table could no longer double.
    overflow: Vec<i64>,
    size: usize,
    capacity: usize,
    /// Stored for information; resizing is driven by eviction walks alone.
    load_factor_percent: u64,
    seed1: u64,
    seed2: u64,
    /// How many times the table has doubled since it was created.
    doublings: Ghost<nat>,
}

impl View for CuckooHashTable {
    type V = Set<i64>;

    closed spec fn view(&self) -> Set<i64> {
        Set::new(|x: i64| self.holds(x))
    }
}

impl CuckooHashTable {
    /// The candidate slot of `x` in group 0.
    pub closed spec fn slot0(&self, x: i64) -> int {
        slot_of(self.seed1, x, self.capacity as nat)
    }

    /// The candidate slot of `x` in group 1.
    pub closed spec fn slot1(&self, x: i64) -> int {
        slot_of(self.seed2, x, self.capacity as nat)
    }

    /// `x` sits in one of its two candidate slots.
    pub closed spec fn in_slots(&self, x: i64) -> bool {
        self.group0@[self.slot0(x)] == Some(x) || self.group1@[self.slot1(x)] == Some(x)
    }

    /// `x` is in the table: in a candidate slot or in the overflow.
    pub closed spec fn holds(&self, x: i64) -> bool {
        self.in_slots(x) || self.overflow@.contains(x)
    }

    /// The number of values in the table, as its `size` field records it.
    pub closed spec fn spec_size(&self) -> nat {
        self.size as nat
    }

    /// Slots per group.
    pub closed spec fn spec_capacity(&self) -> nat {
        self.capacity as nat
    }

    /// The occupied slots of both groups, plus the overflowed values.
    pub closed spec fn live_slots(&self) -> nat {
        count_occupied(self.group0@) + count_occupied(self.group1@) + self.overflow@.len()
    }

    /// The slots of group 0.
    pub closed spec fn slots0(&self) -> Seq<Option<i64>> {
        self.group0@
    }

    /// The slots of group 1.
    pub closed spec fn slots1(&self) -> Seq<Option<i64>> {
        self.group1@
    }

    /// The values that found no slot.
    pub closed spec fn overflowed(&self) -> Seq<i64> {
        self.overflow@
    }

    /// The load factor the table was created with, in percent.
    pub closed spec fn spec_load_factor_percent(&self) -> u64 {
        self.load_factor_percent
    }

    /// The seeds of the two hash functions.
    pub closed spec fn spec_seeds(&self) -> (u64, u64) {
        (self.seed1, self.seed2)
    }

    /// How many times the table has doubled.
    pub closed spec fn spec_doublings(&self) -> nat {
        self.doublings@
    }

    /// The table's invariant.
    pub closed spec fn wf(&self) -> bool {
        &&& self.group0@.len() == self.capacity
        &&& self.group1@.len() == self.capacity
        &&& self.capacity == INITIAL_CAPACITY * pow2(self.doublings@)
        &&& forall|i: int|
            0 <= i < self.capacity && #[trigger] self.group0@[i] is Some ==> self.slot0(
                self.group0@[i]->0,
            ) == i
        &&& forall|i: int|
            0 <= i < self.capacity && #[trigger] self.group1@[i] is Some ==> self.slot1(
                self.group1@[i]->0,
            ) == i
        &&& forall|i: int|
            0 <= i < self.capacity && #[trigger] self.group1@[i] is Some
                ==> self.group0@[self.slot0(self.group1@[i]->0)] != self.group1@[i]
        &&& self.overflow@.no_duplicates()
        &&& forall|j: int|
            0 <= j < self.overflow@.len() ==> !self.in_slots(#[trigger] self.overflow@[j])
        &&& self.overflow@.len() > 0 ==> self.capacity > usize::MAX / 2
        &&& self.size == self.live_slots()
    }

    proof fn lemma_slots_in_range(&self, x: i64)
        requires
            self.wf(),
        ensures
            0 <= self.slot0(x) < self.capacity,
            0 <= self.slot1(x) < self.capacity,
    {
        lemma_pow2_pos(self.doublings@);
    }

    /// Creates an empty table of 16 slots per group, with two freshly
    /// seeded hash functions.
    pub fn new() -> (t: Self)
        ensures
            t.wf(),
            t@ == Set::<i64>::empty(),
            t.spec_size() == 0,
            t.spec_capacity() == 16,
            t.spec_load_factor_percent() == 20,
    {
        let seed1 = fresh_seed();
        let seed2 = fresh_seed();
        let t = CuckooHashTable {
            group0: empty_slots(INITIAL_CAPACITY),
            group1: empty_slots(INITIAL_CAPACITY),
            overflow: Vec::new(),
            size: 0,
            capacity: INITIAL_CAPACITY,
            load_factor_percent: LOAD_FACTOR_PERCENT,
            seed1,
            seed2,
            doublings: Ghost(0),
        };
        proof {
            lemma_count_empty(t.group0@);
            lemma_count_empty(t.group1@);
            assert(t@ =~= Set::<i64>::empty());
        }
        t
    }

    fn h1(&self, x: &i64) -> (r: usize)
        requires
            self.wf(),
        ensures
            r as int == self.slot0(*x),
            r < self.capacity,
    {
        proof {
            lemma_pow2_pos(self.doublings@);
        }
        slot_with_seed(self.seed1, *x, self.capacity)
    }

    fn h2(&self, x: &i64) -> (r: usize)
        requires
            self.wf(),
        ensures
            r as int == self.slot1(*x),
            r < self.capacity,
    {
        proof {
            lemma_pow2_pos(self.doublings@);
        }
        slot_with_seed(self.seed2, *x, self.capacity)
    }

    /// The position of `x` among the overflowed values, if it is there.
    fn overflow_position(&self, x: i64) -> (r: Option<usize>)
        ensures
            r matches Some(j) ==> j < self.overflow@.len() && self.overflow@[j as int] == x,
            r is None ==> !self.overflow@.contains(x),
    {
        let mut j: usize = 0;
        while j < self.overflow.len()
            invariant
                j <= self.overflow@.len(),
                forall|k: int| 0 <= k < j ==> self.overflow@[k] != x,
            decreases self.overflow@.len() - j,
        {
            if self.overflow[j] == x {
                return Some(j);
            }
            j += 1;
        }
        None
    }

    /// Whether `x` is in the table.
    pub fn contains(&self, x: &i64) -> (r: bool)
        requires
            self.wf(),
        ensures
            r == self@.contains(*x),
            r == (self.slots0()[self.slot0(*x)] == Some(*x) || self.slots1()[self.slot1(*x)] == Some(
                *x,
            ) || self.overflowed().contains(*x)),
            self.spec_capacity() <= usize::MAX / 2 ==> self.overflowed().len() == 0,
            table_step(*self, SetOp::Contains(*x), r, *self),
    {
        let b1 = self.h1(x);
        let b2 = self.h2(x);
        if slot_holds(&self.group0[b1], *x) || slot_holds(&self.group1[b2], *x) {
            return true;
        }
        self.overflow_position(*x).is_some()
    }

    /// Removes `x`; returns whether it was in the table.
    pub fn remove(&mut self, x: &i64) -> (r: bool)
        requires
            old(self).wf(),
        ensures
            final(self).wf(),
            r == old(self)@.contains(*x),
            final(self)@ == old(self)@.remove(*x),
            final(self).spec_size() + (if r { 1int } else { 0int }) == old(self).spec_size(),
            final(self).spec_capacity() == old(self).spec_capacity(),
            final(self).spec_seeds() == old(self).spec_seeds(),
            final(self).spec_doublings() == old(self).spec_doublings(),
            final(self).spec_load_factor_percent() == old(self).spec_load_factor_percent(),
            !r ==> *final(self) == *old(self),
            table_step(*old(self), SetOp::Remove(*x), r, *final(self)),
            old(self).slots0()[old(self).slot0(*x)] == Some(*x) ==> final(self).slots0() == old(
                self,
            ).slots0().update(old(self).slot0(*x), None) && final(self).slots1() == old(
                self,
            ).slots1() && final(self).overflowed() == old(self).overflowed(),
            old(self).slots0()[old(self).slot0(*x)] != Some(*x) && old(self).slots1()[old(
                self,
            ).slot1(*x)] == Some(*x) ==> final(self).slots1() == old(self).slots1().update(
                old(self).slot1(*x),
                None,
            ) && final(self).slots0() == old(self).slots0() && final(self).overflowed() == old(
                self,
            ).overflowed(),
    {
        let ghost pre = *self;
        let b1 = self.h1(x);
        if slot_holds(&self.group0[b1], *x) {
            proof {
                lemma_count_update(self.group0@, b1 as int, None);
            }
            self.group0.set(b1, None);
            self.size = self.size - 1;
            proof {
                lemma_cleared(pre, *self, *x);
            }
            return true;
        }
        let b2 = self.h2(x);
        if slot_holds(&self.group1[b2], *x) {
            proof {
                lemma_count_update(self.group1@, b2 as int, None);
            }
            self.group1.set(b2, None);
            self.size = self.size - 1;
            proof {
                lemma_cleared(pre, *self, *x);
            }
            return true;
        }
        match self.overflow_position(*x) {
            Some(j) => {
                self.overflow.remove(j);
                self.size = self.size - 1;
                proof {
                    lemma_overflow_removed(pre, *self, *x, j as int);
                }
                true
            },
            None => {
                assert(self@ =~= pre@.remove(*x));
                false
            },
        }
    }

    /// Puts the absent `elem` in its empty candidate slot of `group`.
    fn insert_into_slot(&mut self, group: usize, bucket: usize, elem: i64)
        requires
            old(self).wf(),
            !old(self)@.contains(elem),
            old(self).size < usize::MAX,
            group == 0 ==> bucket == old(self).slot0(elem) && old(self).group0@[bucket as int] is None,
            group != 0 ==> bucket == old(self).slot1(elem) && old(self).group1@[bucket as int] is None,
        ensures
            final(self).wf(),
            final(self)@ == old(self)@.insert(elem),
            final(self).size == old(self).size + 1,
            same_shape(*old(self), *final(self)),
            final(self).overflow@ == old(self).overflow@,
            group == 0 ==> final(self).group0@ == old(self).group0@.update(bucket as int, Some(elem))
                && final(self).group1@ == old(self).group1@,
            group != 0 ==> final(self).group1@ == old(self).group1@.update(bucket as int, Some(elem))
                && final(self).group0@ == old(self).group0@,
    {
        let ghost pre = *self;
        proof {
            pre.lemma_slots_in_range(elem);
        }
        if group == 0 {
            proof {
                lemma_count_update(self.group0@, bucket as int, Some(elem));
            }
            self.group0.set(bucket, Some(elem));
        } else {
            proof {
                lemma_count_update(self.group1@, bucket as int, Some(elem));
            }
            self.group1.set(bucket, Some(elem));
        }
        self.size += 1;
        proof {
            lemma_placed(pre, *self, elem);
        }
    }

    /// One bounded eviction walk for the absent `x`. Returns `None` once
    /// every displaced value has a slot, or the value left without one.
    fn evict_walk(&mut self, x: i64) -> (r: Option<i64>)
        requires
            old(self).wf(),
            !old(self)@.contains(x),
            old(self).size < usize::MAX,
        ensures
            final(self).wf(),
            same_shape(*old(self), *final(self)),
            final(self).overflow@ == old(self).overflow@,
            r is None ==> final(self)@ == old(self)@.insert(x) && final(self).size == old(
                self,
            ).size + 1,
            r matches Some(y) ==> !final(self)@.contains(y) && final(self)@.insert(y) == old(
                self,
            )@.insert(x) && final(self).size == old(self).size,
            old(self).group0@[old(self).slot0(x)] is None ==> r is None,
    {
        let mut current = x;
        let mut i: usize = 0;
        while i < MAX_LOOP
            invariant
                self.wf(),
                same_shape(*old(self), *self),
                self.overflow@ == old(self).overflow@,
                !self@.contains(current),
                self@.insert(current) == old(self)@.insert(x),
                self.size == old(self).size,
                old(self).size < usize::MAX,
                i == 0 ==> current == x && *self == *old(self),
                i > 0 ==> old(self).group0@[old(self).slot0(x)] is Some,
            decreases MAX_LOOP - i,
        {
            let b1 = self.h1(&current);
            match self.group0[b1] {
                None => {
                    self.insert_into_slot(0, b1, current);
                    return None;
                },
                Some(evicted) => {
                    let ghost pre = *self;
                    self.group0.set(b1, Some(current));
                    proof {
                        lemma_swapped(pre, *self, current, evicted);
                    }
                    current = evicted;
                },
            }
            let b2 = self.h2(&current);
            if self.group1[b2].is_none() {
                self.insert_into_slot(1, b2, current);
                return None;
            }
            i += 1;
        }
        Some(current)
    }

    /// Adds the absent `x`, doubling the table as often as eviction walks
    /// fail; once the table can no longer double, a homeless value goes to
    /// the overflow.
    fn place(&mut self, x: i64)
        requires
            old(self).wf(),
            !old(self)@.contains(x),
            old(self).size < usize::MAX,
        ensures
            final(self).wf(),
            final(self)@ == old(self)@.insert(x),
            final(self).size == old(self).size + 1,
            final(self).capacity >= old(self).capacity,
            final(self).doublings@ >= old(self).doublings@,
            final(self).seed1 == old(self).seed1,
            final(self).seed2 == old(self).seed2,
            final(self).load_factor_percent == old(self).load_factor_percent,
        decreases usize::MAX - old(self).capacity, 1nat,
    {
        let mut pending = x;
        loop
            invariant
                self.wf(),
                !self@.contains(pending),
                self@.insert(pending) == old(self)@.insert(x),
                self.size == old(self).size,
                old(self).size < usize::MAX,
                self.capacity >= old(self).capacity,
                self.doublings@ >= old(self).doublings@,
                self.seed1 == old(self).seed1,
                self.seed2 == old(self).seed2,
                self.load_factor_percent == old(self).load_factor_percent,
            decreases usize::MAX - self.capacity,
        {
            match self.evict_walk(pending) {
                None => {
                    return;
                },
                Some(homeless) => {
                    if self.capacity <= usize::MAX / 2 {
                        self.resize_and_rehash();
                        pending = homeless;
                    } else {
                        let ghost pre = *self;
                        self.overflow.push(homeless);
                        self.size += 1;
                        proof {
                            lemma_overflowed(pre, *self, homeless);
                        }
                        return;
                    }
                },
            }
        }
    }

    /// Doubles both groups and places every value anew under the same hash
    /// functions.
    fn resize_and_rehash(&mut self)
        requires
            old(self).wf(),
            old(self).capacity <= usize::MAX / 2,
        ensures
            final(self).wf(),
            final(self)@ == old(self)@,
            final(self).size == old(self).size,
            final(self).capacity > old(self).capacity,
            final(self).doublings@ > old(self).doublings@,
            final(self).seed1 == old(self).seed1,
            final(self).seed2 == old(self).seed2,
            final(self).load_factor_percent == old(self).load_factor_percent,
        decreases usize::MAX - old(self).capacity, 0nat,
    {
        proof {
            lemma_pow2_pos(self.doublings@);
        }
        let new_capacity = self.capacity * 2;
        let mut resized = CuckooHashTable {
            group0: empty_slots(new_capacity),
            group1: empty_slots(new_capacity),
            overflow: Vec::new(),
            size: 0,
            capacity: new_capacity,
            load_factor_percent: self.load_factor_percent,
            seed1: self.seed1,
            seed2: self.seed2,
            doublings: Ghost(self.doublings@ + 1),
        };
        proof {
            lemma_count_empty(resized.group0@);
            lemma_count_empty(resized.group1@);
            assert(resized@ =~= Set::<i64>::empty());
            assert(self.overflow@.len() == 0);
            lemma_count_prefix(self.group0@, 0);
            lemma_count_prefix(self.group1@, 0);
            assert(self.group0@.subrange(0, 0) =~= Seq::<Option<i64>>::empty());
        }
        let mut i: usize = 0;
        while i < self.capacity
            invariant
                self.wf(),
                self.overflow@.len() == 0,
                i <= self.capacity,
                resized.wf(),
                resized.capacity >= new_capacity,
                new_capacity == 2 * self.capacity,
                resized.doublings@ > self.doublings@,
                resized.seed1 == self.seed1,
                resized.seed2 == self.seed2,
                resized.load_factor_percent == self.load_factor_percent,
                resized.size == count_occupied(self.group0@.subrange(0, i as int)),
                resized@ == Set::new(|y: i64| self.slot0(y) < i && self.group0@[self.slot0(y)] == Some(y)),
            decreases self.capacity - i,
        {
            proof {
                lemma_count_prefix(self.group0@, i as int);
                lemma_count_prefix(self.group0@, i as int + 1);
            }
            match self.group0[i] {
                Some(y) => {
                    assert(self.group0@[i as int] is Some);
                    assert(!resized@.contains(y));
                    resized.place(y);
                },
                None => {},
            }
            i += 1;
            proof {
                assert forall|y: i64| (self.slot0(y) < i && self.group0@[self.slot0(y)] == Some(y))
                    == (self.slot0(y) < i - 1 && self.group0@[self.slot0(y)] == Some(y)
                        || self.group0@[i - 1] == Some(y)) by {
                    self.lemma_slots_in_range(y);
                    if self.group0@[i - 1] == Some(y) {
                        assert(self.group0@[i - 1] is Some);
                    }
                }
                assert(resized@ =~= Set::new(|y: i64| self.slot0(y) < i && self.group0@[self.slot0(y)] == Some(y)));
            }
        }
        proof {
            assert(self.group0@.subrange(0, i as int) =~= self.group0@);
        }
        let ghost first = resized.size;
        let mut j: usize = 0;
        while j < self.capacity
            invariant
                self.wf(),
                self.overflow@.len() == 0,
                j <= self.capacity,
                resized.wf(),
                resized.capacity >= new_capacity,
                new_capacity == 2 * self.capacity,
                resized.doublings@ > self.doublings@,
                resized.seed1 == self.seed1,
                resized.seed2 == self.seed2,
                resized.load_factor_percent == self.load_factor_percent,
                first == count_occupied(self.group0@),
                resized.size == first + count_occupied(self.group1@.subrange(0, j as int)),
                resized@ == Set::new(|y: i64| self.group0@[self.slot0(y)] == Some(y)
                    || (self.slot1(y) < j && self.group1@[self.slot1(y)] == Some(y))),
            decreases self.capacity - j,
        {
            proof {
                lemma_count_prefix(self.group1@, j as int);
                lemma_count_prefix(self.group1@, j as int + 1);
            }
            match self.group1[j] {
                Some(y) => {
                    assert(self.group1@[j as int] is Some);
                    assert(!resized@.contains(y));
                    resized.place(y);
                },
                None => {},
            }
            j += 1;
            proof {
                assert forall|y: i64| (self.group0@[self.slot0(y)] == Some(y)
                    || (self.slot1(y) < j && self.group1@[self.slot1(y)] == Some(y)))
                    == (self.group0@[self.slot0(y)] == Some(y)
                    || (self.slot1(y) < j - 1 && self.group1@[self.slot1(y)] == Some(y))
                        || self.group1@[j - 1] == Some(y)) by {
                    self.lemma_slots_in_range(y);
                    if self.group1@[j - 1] == Some(y) {
                        assert(self.group1@[j - 1] is Some);
                    }
                }
                assert(resized@ =~= Set::new(|y: i64| self.group0@[self.slot0(y)] == Some(y)
                    || (self.slot1(y) < j && self.group1@[self.slot1(y)] == Some(y))));
            }
        }
        proof {
            assert(self.group1@.subrange(0, j as int) =~= self.group1@);
            assert forall|y: i64| resized@.contains(y) == self@.contains(y) by {
                self.lemma_slots_in_range(y);
            }
            assert(resized@ =~= self@);
        }
        *self = resized;
    }

    /// Adds `x`; returns whether it was absent. A present `x` leaves the
    /// table untouched.
    pub fn insert(&mut self, x: i64) -> (r: bool)
        requires
            old(self).wf(),
            old(self).spec_size() < usize::MAX,
        ensures
            final(self).wf(),
            r == !old(self)@.contains(x),
            final(self)@ == old(self)@.insert(x),
            !r ==> *final(self) == *old(self),
            final(self).spec_size() == old(self).spec_size() + (if r { 1int } else { 0int }),
            final(self).spec_capacity() >= old(self).spec_capacity(),
            final(self).spec_doublings() >= old(self).spec_doublings(),
            final(self).spec_seeds() == old(self).spec_seeds(),
            final(self).spec_load_factor_percent() == old(self).spec_load_factor_percent(),
            old(self).slots0()[old(self).slot0(x)] is None || old(self).slots1()[old(self).slot1(
                x,
            )] is None ==> final(self).spec_capacity() == old(self).spec_capacity(),
            table_step(*old(self), SetOp::Insert(x), r, *final(self)),
    {
        if self.contains(&x) {
            proof {
                assert(self@.insert(x) =~= self@);
            }
            return false;
        }
        let b0 = self.h1(&x);
        if self.group0[b0].is_none() {
            self.insert_into_slot(0, b0, x);
            return true;
        }
        let b1 = self.h2(&x);
        if self.group1[b1].is_none() {
            self.insert_into_slot(1, b1, x);
            return true;
        }
        self.place(x);
        true
    }

    /// The candidate slots of `x` in group 0 and group 1.
    pub fn candidate_slots(&self, x: &i64) -> (r: (usize, usize))
        requires
            self.wf(),
        ensures
            r.0 as int == self.slot0(*x),
            r.1 as int == self.slot1(*x),
            r.0 < self.spec_capacity(),
            r.1 < self.spec_capacity(),
    {
        (self.h1(x), self.h2(x))
    }

    /// The number of values in the table.
    pub fn size(&self) -> (r: usize)
        ensures
            r == self.spec_size(),
    {
        self.size
    }

    /// Slots per group.
    pub fn capacity(&self) -> (r: usize)
        ensures
            r == self.spec_capacity(),
    {
        self.capacity
    }

    /// The load factor the table was created with, in percent. It does not
    /// decide when the table doubles.
    pub fn load_factor_percent(&self) -> (r: u64)
        ensures
            r == self.spec_load_factor_percent(),
    {
        self.load_factor_percent
    }

    /// Counts the occupied slots of both groups and the overflowed values,
    /// one by one.
    pub fn count_live_slots(&self) -> (r: usize)
        requires
            self.wf(),
        ensures
            r == self.live_slots(),
    {
        let mut n: usize = self.overflow.len();
        let mut i: usize = 0;
        proof {
            lemma_count_prefix(self.group0@, 0);
            assert(self.group0@.subrange(0, 0) =~= Seq::<Option<i64>>::empty());
        }
        while i < self.capacity
            invariant
                self.wf(),
                i <= self.capacity,
                n == self.overflow@.len() + count_occupied(self.group0@.subrange(0, i as int)),
            decreases self.capacity - i,
        {
            proof {
                lemma_count_prefix(self.group0@, i as int);
                lemma_count_prefix(self.group0@, i as int + 1);
            }
            if self.group0[i].is_some() {
                n += 1;
            }
            i += 1;
        }
        proof {
            assert(self.group0@.subrange(0, i as int) =~= self.group0@);
            lemma_count_prefix(self.group1@, 0);
            assert(self.group1@.subrange(0, 0) =~= Seq::<Option<i64>>::empty());
        }
        let mut j: usize = 0;
        while j < self.capacity
            invariant
                self.wf(),
                j <= self.capacity,
                n == self.overflow@.len() + count_occupied(self.group0@) + count_occupied(
                    self.group1@.subrange(0, j as int),
                ),
            decreases self.capacity - j,
        {
            proof {
                lemma_count_prefix(self.group1@, j as int);
                lemma_count_prefix(self.group1@, j as int + 1);
            }
            if self.group1[j].is_some() {
                n += 1;
            }
            j += 1;
        }
        proof {
            assert(self.group1@.subrange(0, j as int) =~= self.group1@);
        }
        n
    }
}

/// Filling the empty candidate slot of an absent `x` adds `x` and keeps
/// the invariant.
proof fn lemma_placed(pre: CuckooHashTable, post: CuckooHashTable, x: i64)
    requires
        pre.wf(),
        !pre@.contains(x),
        same_shape(pre, post),
        post.overflow@ == pre.overflow@,
        post.size == post.live_slots(),
        ({
            ||| pre.group0@[pre.slot0(x)] is None && post.group0@ == pre.group0@.update(
                pre.slot0(x),
                Some(x),
            ) && post.group1@ == pre.group1@
            ||| pre.group1@[pre.slot1(x)] is None && post.group1@ == pre.group1@.update(
                pre.slot1(x),
                Some(x),
            ) && post.group0@ == pre.group0@
        }),
    ensures
        post.wf(),
        post@ == pre@.insert(x),
{
    pre.lemma_slots_in_range(x);
    assert(!pre.holds(x));
    assert forall|y: i64| post.in_slots(y) == (pre.in_slots(y) || y == x) by {
        pre.lemma_slots_in_range(y);
    }
    assert forall|i: int|
        0 <= i < post.capacity && #[trigger] post.group1@[i] is Some implies post.group0@[post.slot0(
            post.group1@[i]->0,
        )] != post.group1@[i] by {
        let y = post.group1@[i]->0;
        pre.lemma_slots_in_range(y);
        if y != x {
            assert(pre.group1@[i] == post.group1@[i]);
        }
    }
    assert forall|j: int| 0 <= j < post.overflow@.len() implies !post.in_slots(
        #[trigger] post.overflow@[j],
    ) by {
        assert(!pre.in_slots(pre.overflow@[j]));
        assert(pre.overflow@.contains(pre.overflow@[j]));
    }
    assert(post@ =~= pre@.insert(x));
}

/// Putting an absent `cur` in its group-0 slot in place of `e` leaves
/// `e` homeless and keeps the invariant.
proof fn lemma_swapped(pre: CuckooHashTable, post: CuckooHashTable, cur: i64, e: i64)
    requires
        pre.wf(),
        !pre@.contains(cur),
        same_shape(pre, post),
        post.overflow@ == pre.overflow@,
        post.size == pre.size,
        pre.group0@[pre.slot0(cur)] == Some(e),
        post.group0@ == pre.group0@.update(pre.slot0(cur), Some(cur)),
        post.group1@ == pre.group1@,
    ensures
        post.wf(),
        !post@.contains(e),
        post@.insert(e) == pre@.insert(cur),
{
    pre.lemma_slots_in_range(cur);
    lemma_count_update(pre.group0@, pre.slot0(cur), Some(cur));
    assert(!pre.holds(cur));
    assert(pre.group0@[pre.slot0(cur)] is Some);
    assert(pre.slot0(e) == pre.slot0(cur));
    assert(pre.in_slots(e));
    assert(pre.group1@[pre.slot1(e)] != Some(e)) by {
        pre.lemma_slots_in_range(e);
        if pre.group1@[pre.slot1(e)] == Some(e) {
            assert(pre.group1@[pre.slot1(e)] is Some);
        }
    }
    assert forall|y: i64| post.in_slots(y) == ((pre.in_slots(y) && y != e) || y == cur) by {
        pre.lemma_slots_in_range(y);
    }
    assert forall|i: int|
        0 <= i < post.capacity && #[trigger] post.group1@[i] is Some implies post.group0@[post.slot0(
            post.group1@[i]->0,
        )] != post.group1@[i] by {
        let y = post.group1@[i]->0;
        pre.lemma_slots_in_range(y);
        assert(pre.group1@[i] == post.group1@[i]);
        assert(pre.group1@[pre.slot1(y)] == Some(y));
    }
    assert forall|j: int| 0 <= j < post.overflow@.len() implies !post.in_slots(
        #[trigger] post.overflow@[j],
    ) by {
        assert(!pre.in_slots(pre.overflow@[j]));
        assert(pre.overflow@.contains(pre.overflow@[j]));
    }
    assert(!pre.overflow@.contains(e)) by {
        if pre.overflow@.contains(e) {
            let j = choose|j: int| 0 <= j < pre.overflow@.len() && pre.overflow@[j] == e;
            assert(!pre.in_slots(pre.overflow@[j]));
        }
    }
    assert(post@.insert(e) =~= pre@.insert(cur));
}

/// Appending an absent `y` to the overflow of a table that can no longer
/// double adds `y` and keeps the invariant.
proof fn lemma_overflowed(pre: CuckooHashTable, post: CuckooHashTable, y: i64)
    requires
        pre.wf(),
        !pre@.contains(y),
        pre.capacity > usize::MAX / 2,
        same_shape(pre, post),
        post.group0@ == pre.group0@,
        post.group1@ == pre.group1@,
        post.overflow@ == pre.overflow@.push(y),
        post.size == pre.size + 1,
    ensures
        post.wf(),
        post@ == pre@.insert(y),
{
    assert(!pre.holds(y));
    assert forall|j: int| 0 <= j < post.overflow@.len() implies !post.in_slots(
        #[trigger] post.overflow@[j],
    ) by {
        if j < pre.overflow@.len() {
            assert(post.overflow@[j] == pre.overflow@[j]);
        }
    }
    assert forall|a: int, b: int|
        0 <= a < post.overflow@.len() && 0 <= b < post.overflow@.len() && a != b
        implies post.overflow@[a] != post.overflow@[b] by {
        if a < pre.overflow@.len() && b < pre.overflow@.len() {
        } else if a < pre.overflow@.len() {
            assert(pre.overflow@.contains(pre.overflow@[a]));
        } else {
            assert(pre.overflow@.contains(pre.overflow@[b]));
        }
    }
    assert forall|z: i64| post.overflow@.contains(z) == (pre.overflow@.contains(z) || z == y) by {
        if post.overflow@.contains(z) {
            let k = choose|k: int| 0 <= k < post.overflow@.len() && post.overflow@[k] == z;
            if k < pre.overflow@.len() {
                assert(pre.overflow@[k] == z);
            }
        }
        if pre.overflow@.contains(z) {
            let k = choose|k: int| 0 <= k < pre.overflow@.len() && pre.overflow@[k] == z;
            assert(post.overflow@[k] == z);
        }
        assert(post.overflow@[pre.overflow@.len() as int] == y);
    }
    assert(post@ =~= pre@.insert(y));
}

/// The tables agree on everything but their slots and overflow.
pub closed spec fn same_shape(a: CuckooHashTable, b: CuckooHashTable) -> bool {
    &&& a.capacity == b.capacity
    &&& a.seed1 == b.seed1
    &&& a.seed2 == b.seed2
    &&& a.doublings == b.doublings
    &&& a.load_factor_percent == b.load_factor_percent
}

/// Emptying the slot that holds `x` removes `x` and keeps the invariant.
proof fn lemma_cleared(pre: CuckooHashTable, post: CuckooHashTable, x: i64)
    requires
        pre.wf(),
        same_shape(pre, post),
        post.overflow@ == pre.overflow@,
        post.size == post.live_slots(),
        ({
            ||| pre.group0@[pre.slot0(x)] == Some(x) && post.group0@ == pre.group0@.update(
                pre.slot0(x),
                None,
            ) && post.group1@ == pre.group1@
            ||| pre.group1@[pre.slot1(x)] == Some(x) && post.group1@ == pre.group1@.update(
                pre.slot1(x),
                None,
            ) && post.group0@ == pre.group0@
        }),
    ensures
        post.wf(),
        post@ == pre@.remove(x),
{
    pre.lemma_slots_in_range(x);
    assert(pre.in_slots(x));
    if pre.group1@[pre.slot1(x)] == Some(x) {
        assert(pre.group1@[pre.slot1(x)] is Some);
    }
    assert forall|y: i64| post.in_slots(y) == (pre.in_slots(y) && y != x) by {
        pre.lemma_slots_in_range(y);
        if pre.group1@[pre.slot1(y)] is Some {
            assert(pre.group1@[pre.slot1(y)] is Some);
        }
    }
    assert forall|j: int| 0 <= j < post.overflow@.len() implies !post.in_slots(
        #[trigger] post.overflow@[j],
    ) by {
        assert(!pre.in_slots(pre.overflow@[j]));
    }
    assert(!pre.overflow@.contains(x)) by {
        if pre.overflow@.contains(x) {
            let j = choose|j: int| 0 <= j < pre.overflow@.len() && pre.overflow@[j] == x;
            assert(!pre.in_slots(pre.overflow@[j]));
        }
    }
    assert(post@ =~= pre@.remove(x));
}

/// Dropping `x` from the overflow removes it and keeps the invariant.
proof fn lemma_overflow_removed(pre: CuckooHashTable, post: CuckooHashTable, x: i64, j: int)
    requires
        pre.wf(),
        same_shape(pre, post),
        post.group0@ == pre.group0@,
        post.group1@ == pre.group1@,
        0 <= j < pre.overflow@.len(),
        pre.overflow@[j] == x,
        post.overflow@ == pre.overflow@.remove(j),
        post.size + 1 == pre.size,
    ensures
        post.wf(),
        post@ == pre@.remove(x),
{
    let s = pre.overflow@;
    assert(!pre.in_slots(s[j]));
    assert forall|k: int| 0 <= k < post.overflow@.len() implies !post.in_slots(
        #[trigger] post.overflow@[k],
    ) by {
        if k < j {
            assert(post.overflow@[k] == s[k]);
            assert(!pre.in_slots(s[k]));
        } else {
            assert(post.overflow@[k] == s[k + 1]);
            assert(!pre.in_slots(s[k + 1]));
        }
    }
    assert forall|y: i64| post.overflow@.contains(y) == (s.contains(y) && y != x) by {
        if s.contains(y) && y != x {
            let k = choose|k: int| 0 <= k < s.len() && s[k] == y;
            if k < j {
                assert(post.overflow@[k] == y);
            } else {
                assert(post.overflow@[k - 1] == y);
            }
        }
        if post.overflow@.contains(y) {
            let k = choose|k: int| 0 <= k < post.overflow@.len() && post.overflow@[k] == y;
            if k < j {
                assert(s[k] == y);
            } else {
                assert(s[k + 1] == y);
                assert(k + 1 != j);
            }
        }
    }
    assert(post.overflow@.no_duplicates()) by {
        assert forall|a: int, b: int|
            0 <= a < post.overflow@.len() && 0 <= b < post.overflow@.len() && a != b
            implies post.overflow@[a] != post.overflow@[b] by {
            let a2 = if a < j { a } else { a + 1 };
            let b2 = if b < j { b } else { b + 1 };
            assert(post.overflow@[a] == s[a2]);
            assert(post.overflow@[b] == s[b2]);
        }
    }
    assert(post@ =~= pre@.remove(x));
}

/// `pow2(a + b) == pow2(a) * pow2(b)`.
proof fn lemma_pow2_add(a: nat, b: nat)
    ensures
        pow2(a + b) == pow2(a) * pow2(b),
    decreases a,
{
    if a == 0 {
        assert(pow2(0) == 1);
        assert(a + b == b);
    } else {
        let c = (a - 1) as nat;
        lemma_pow2_add(c, b);
        assert((a + b) as nat - 1 == c + b);
        assert(pow2(a + b) == 2 * pow2(c + b));
        assert(pow2(a) == 2 * pow2(c));
        assert(2 * (pow2(c) * pow2(b)) == (2 * pow2(c)) * pow2(b)) by (nonlinear_arith);
    }
}

/// Every table's capacity is 16 doubled some number of times.
pub proof fn lemma_capacity_is_power_of_two(t: &CuckooHashTable)
    requires
        t.wf(),
    ensures
        t.spec_capacity() == 16 * pow2(t.spec_doublings()),
{
}

/// Capacity only grows, and only by doubling: a table that has doubled at
/// least as often as another of the same lineage has the other's capacity
/// times a power of two. Removal never changes the count of doublings, and
/// insertion never lowers it.
pub proof fn lemma_capacity_never_shrinks(before: &CuckooHashTable, after: &CuckooHashTable)
    requires
        before.wf(),
        after.wf(),
        after.spec_doublings() >= before.spec_doublings(),
    ensures
        after.spec_capacity() == before.spec_capacity() * pow2(
            (after.spec_doublings() - before.spec_doublings()) as nat,
        ),
        after.spec_capacity() >= before.spec_capacity(),
{
    let k = (after.spec_doublings() - before.spec_doublings()) as nat;
    lemma_pow2_add(before.spec_doublings(), k);
    lemma_pow2_pos(k);
    assert(16 * (pow2(before.spec_doublings()) * pow2(k)) == (16 * pow2(before.spec_doublings()))
        * pow2(k)) by (nonlinear_arith);
    assert(before.spec_capacity() * pow2(k) >= before.spec_capacity()) by (nonlinear_arith)
        requires
            pow2(k) >= 1,
    ;
}

/// The recorded size is exactly the number of occupied slots plus
/// overflowed values.
pub proof fn lemma_size_counts_live_slots(t: &CuckooHashTable)
    requires
        t.wf(),
    ensures
        t.spec_size() == t.live_slots(),
{
}

/// At most two values share both candidate slots: one in each group.
/// Capacities above `usize::MAX / 2`, where the overflow may hold values,
/// are left out.
pub proof fn lemma_at_most_two_share_slots(t: &CuckooHashTable, a: i64, b: i64, c: i64)
    requires
        t.wf(),
        t.spec_capacity() <= usize::MAX / 2,
        a != b,
        b != c,
        a != c,
        t.slot0(a) == t.slot0(b),
        t.slot0(b) == t.slot0(c),
        t.slot1(a) == t.slot1(b),
        t.slot1(b) == t.slot1(c),
    ensures
        !(t@.contains(a) && t@.contains(b) && t@.contains(c)),
{
    assert(t.overflow@.len() == 0);
    assert(!t.overflow@.contains(a));
    assert(!t.overflow@.contains(b));
    assert(!t.overflow@.contains(c));
}

/// Three distinct values that share both candidate slots in one table can
/// sit together in a later table with the same hash functions only if the
/// table has doubled in between.
pub proof fn lemma_sharing_forces_growth(
    before: &CuckooHashTable,
    after: &CuckooHashTable,
    a: i64,
    b: i64,
    c: i64,
)
    requires
        before.wf(),
        after.wf(),
        after.spec_seeds() == before.spec_seeds(),
        after.spec_doublings() >= before.spec_doublings(),
        after.spec_capacity() <= usize::MAX / 2,
        a != b,
        b != c,
        a != c,
        before.slot0(a) == before.slot0(b),
        before.slot0(b) == before.slot0(c),
        before.slot1(a) == before.slot1(b),
        before.slot1(b) == before.slot1(c),
        after@.contains(a),
        after@.contains(b),
        after@.contains(c),
    ensures
        after.spec_capacity() >= 2 * before.spec_capacity(),
{
    lemma_capacity_never_shrinks(before, after);
    let k = (after.spec_doublings() - before.spec_doublings()) as nat;
    if k == 0 {
        lemma_at_most_two_share_slots(after, a, b, c);
    } else {
        assert(pow2(k) == 2 * pow2((k - 1) as nat));
        lemma_pow2_pos((k - 1) as nat);
        assert(before.spec_capacity() * pow2(k) >= 2 * before.spec_capacity()) by (nonlinear_arith)
            requires
                pow2(k) == 2 * pow2((k - 1) as nat),
                pow2((k - 1) as nat) >= 1,
        ;
    }
}

proof fn lemma_reference_run_finite(s: Set<i64>, ops: Seq<SetOp>)
    requires
        s.finite(),
    ensures
        reference_run(s, ops).finite(),
    decreases ops.len(),
{
    if ops.len() > 0 {
        lemma_reference_run_finite(s, ops.drop_last());
    }
}

proof fn lemma_run_prefix(
    tables: Seq<CuckooHashTable>,
    ops: Seq<SetOp>,
    answers: Seq<bool>,
    i: int,
)
    requires
        tables.len() == ops.len() + 1,
        answers.len() == ops.len(),
        tables[0]@ == Set::<i64>::empty(),
        tables[0].spec_size() == 0,
        forall|j: int|
            0 <= j < ops.len() ==> table_step(
                #[trigger] tables[j],
                ops[j],
                answers[j],
                tables[j + 1],
            ),
        0 <= i <= ops.len(),
    ensures
        tables[i]@ == reference_run(Set::<i64>::empty(), ops.take(i)),
        tables[i].spec_size() == reference_run(Set::<i64>::empty(), ops.take(i)).len(),
        i < ops.len() ==> answers[i] == reference_step(
            reference_run(Set::<i64>::empty(), ops.take(i)),
            ops[i],
        ).1,
    decreases i,
{
    let e = Set::<i64>::empty();
    if i > 0 {
        lemma_run_prefix(tables, ops, answers, i - 1);
        assert(ops.take(i).drop_last() =~= ops.take(i - 1));
        assert(ops.take(i).last() == ops[i - 1]);
        lemma_reference_run_finite(e, ops.take(i - 1));
        assert(table_step(tables[i - 1], ops[i - 1], answers[i - 1], tables[i]));
    } else {
        assert(ops.take(0) =~= Seq::<SetOp>::empty());
    }
    if i < ops.len() {
        assert(table_step(tables[i], ops[i], answers[i], tables[i + 1]));
    }
}

/// Any run of operations on a table that starts empty behaves as the same
/// run on a plain set: after every prefix the table holds exactly the plain
/// set, its size is that set's size, and each answer is the plain set's.
pub proof fn lemma_run_matches_reference(
    tables: Seq<CuckooHashTable>,
    ops: Seq<SetOp>,
    answers: Seq<bool>,
)
    requires
        tables.len() == ops.len() + 1,
        answers.len() == ops.len(),
        tables[0]@ == Set::<i64>::empty(),
        tables[0].spec_size() == 0,
        forall|j: int|
            0 <= j < ops.len() ==> table_step(
                #[trigger] tables[j],
                ops[j],
                answers[j],
                tables[j + 1],
            ),
    ensures
        forall|i: int|
            0 <= i <= ops.len() ==> #[trigger] tables[i]@ == reference_run(
                Set::<i64>::empty(),
                ops.take(i),
            ) && tables[i].spec_size() == reference_run(Set::<i64>::empty(), ops.take(i)).len(),
        forall|i: int|
            0 <= i < ops.len() ==> #[trigger] answers[i] == reference_step(
                reference_run(Set::<i64>::empty(), ops.take(i)),
                ops[i],
            ).1,
{
    assert forall|i: int| 0 <= i <= ops.len() implies #[trigger] tables[i]@ == reference_run(
        Set::<i64>::empty(),
        ops.take(i),
    ) && tables[i].spec_size() == reference_run(Set::<i64>::empty(), ops.take(i)).len() by {
        lemma_run_prefix(tables, ops, answers, i);
    }
    assert forall|i: int| 0 <= i < ops.len() implies #[trigger] answers[i] == reference_step(
        reference_run(Set::<i64>::empty(), ops.take(i)),
        ops[i],
    ).1 by {
        lemma_run_prefix(tables, ops, answers, i);
    }
}

proof fn lemma_pow2_pos(k: nat)
    ensures
        pow2(k) >= 1,
    decreases k,
{
    if k > 0 {
        lemma_pow2_pos((k - 1) as nat);
    }
}

/// Whether `slot` holds `x`.
fn slot_holds(slot: &Option<i64>, x: i64) -> (r: bool)
    ensures
        r == (*slot == Some(x)),
{
    match slot {
        Some(y) => *y == x,
        None => false,
    }
}

/// `n` empty slots.
fn empty_slots(n: usize) -> (r: Vec<Option<i64>>)
    ensures
        r@.len() == n,
        forall|i: int| 0 <= i < n ==> r@[i] is None,
{
    let mut r: Vec<Option<i64>> = Vec::new();
    let mut i: usize = 0;
    while i < n
        invariant
            i <= n,
            r@.len() == i,
            forall|k: int| 0 <= k < i ==> r@[k] is None,
        decreases n - i,
    {
        r.push(None);
        i += 1;
    }
    r
}

} // verus!
