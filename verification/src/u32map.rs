//! A map that hands out `u32` identifiers for the values stored in it.
//!
//! Identifiers are given out in increasing order starting after a cursor,
//! wrapping around at `u32::MAX`, and skipping identifiers still in use.
use std::collections::HashMap;
use vstd::prelude::*;

verus! {

broadcast use vstd::std_specs::hash::group_hash_axioms;

/// Number of distinct `u32` values.
pub open spec fn id_space() -> int {
    0x1_0000_0000
}

/// The identifier reached after `steps` wrapping increments of `start`.
pub open spec fn step_from(start: u32, steps: int) -> u32 {
    ((start as int + steps) % id_space()) as u32
}

/// Every identifier strictly between `start` and `steps` increments later is taken.
pub open spec fn taken_between<T>(entries: Map<u32, T>, start: u32, steps: int) -> bool {
    forall|j: int| 1 <= j < steps ==> #[trigger] entries.contains_key(step_from(start, j))
}

/// Hash map that assigns ids to items for later retrieval.
#[derive(Clone, Debug)]
pub struct U32Map<T> {
    map: HashMap<u32, T>,
    val: u32,
}

impl<T> U32Map<T> {
    /// The stored identifiers and their values.
    pub closed spec fn entries(&self) -> Map<u32, T> {
        self.map@
    }

    /// The most recently handed out identifier (initially `u32::MAX`).
    pub closed spec fn cursor(&self) -> u32 {
        self.val
    }

    /// An empty map whose first identifier will be 0.
    pub fn new() -> (m: Self)
        ensures
            m.entries() == Map::<u32, T>::empty(),
            m.cursor() == u32::MAX,
    {
        U32Map { map: HashMap::new(), val: u32::MAX }
    }

    /// Stores `value` under the first free identifier after the cursor.
    ///
    /// Returns `None`, leaving the map unchanged, when every identifier other
    /// than the cursor itself is taken.
    pub fn insert(&mut self, value: T) -> (id: Option<u32>)
        ensures
            match id {
                Some(k) => {
                    &&& exists|d: int|
                        1 <= d < id_space() && k == step_from(old(self).cursor(), d)
                            && taken_between(old(self).entries(), old(self).cursor(), d)
                    &&& !old(self).entries().contains_key(k)
                    &&& final(self).entries() == old(self).entries().insert(k, value)
                    &&& final(self).cursor() == k
                },
                None => {
                    &&& taken_between(old(self).entries(), old(self).cursor(), id_space())
                    &&& final(self).entries() == old(self).entries()
                    &&& final(self).cursor() == old(self).cursor()
                },
            },
    {
        let initial = self.val;
        let mut cur = initial.wrapping_add(1);
        let ghost mut steps: int = 1;
        while self.map.contains_key(&cur) && cur != initial
            invariant
                1 <= steps <= id_space(),
                cur == step_from(initial, steps),
                taken_between(self.map@, initial, steps),
                initial == old(self).val,
                self.map@ == old(self).map@,
            decreases id_space() - steps,
        {
            proof {
                assert(steps < id_space()) by {
                    if steps == id_space() {
                        assert(step_from(initial, steps) == initial);
                    }
                }
            }
            cur = cur.wrapping_add(1);
            proof {
                steps = steps + 1;
            }
        }
        if cur == initial {
            proof {
                assert(steps == id_space()) by {
                    if steps < id_space() {
                        assert(step_from(initial, steps) != initial);
                    }
                }
            }
            None
        } else {
            proof {
                assert(steps < id_space());
            }
            self.map.insert(cur, value);
            self.val = cur;
            assert(1 <= steps < id_space() && cur == step_from(old(self).cursor(), steps)
                && taken_between(old(self).entries(), old(self).cursor(), steps));
            Some(cur)
        }
    }

    /// The value stored under `key`, if any.
    pub fn get(&self, key: &u32) -> (r: Option<&T>)
        ensures
            match r {
                Some(v) => self.entries().contains_key(*key) && self.entries()[*key] == *v,
                None => !self.entries().contains_key(*key),
            },
    {
        self.map.get(key)
    }
}

} // verus!

verus! {

/// Identifiers handed out by two successive inserts differ, and both values
/// stay readable under their identifiers.
pub proof fn lemma_successive_ids_distinct<T>(
    entries: Map<u32, T>,
    first: u32,
    first_value: T,
    second: u32,
    second_value: T,
)
    requires
        !entries.contains_key(first),
        !entries.insert(first, first_value).contains_key(second),
    ensures
        first != second,
        entries.insert(first, first_value).insert(second, second_value)[first] == first_value,
        entries.insert(first, first_value).insert(second, second_value)[second] == second_value,
{
}

/// The map holds exactly the identifiers `0 .. n` and its cursor is the last
/// of them (`u32::MAX` when empty): the state a new map reaches after `n`
/// inserts.
pub open spec fn holds_first_ids<T>(entries: Map<u32, T>, cursor: u32, n: int) -> bool {
    &&& 0 <= n <= id_space()
    &&& forall|k: u32| #[trigger] entries.contains_key(k) <==> k < n
    &&& cursor == step_from(u32::MAX, n)
}

/// A new map holds the first zero identifiers.
pub proof fn lemma_new_holds_first_ids<T>()
    ensures
        holds_first_ids(Map::<u32, T>::empty(), u32::MAX, 0),
{
}

/// From a map that holds the identifiers `0 .. n` with `n < 2^32`, the only
/// identifier `insert` may hand out is `n`, and afterwards the map holds
/// `0 .. n + 1`, with `value` under `n`.
pub proof fn lemma_insert_hands_out_next_id<T>(
    entries: Map<u32, T>,
    cursor: u32,
    n: int,
    k: u32,
    d: int,
    value: T,
)
    requires
        holds_first_ids(entries, cursor, n),
        n < id_space(),
        1 <= d < id_space(),
        k == step_from(cursor, d),
        taken_between(entries, cursor, d),
        !entries.contains_key(k),
    ensures
        k == n,
        holds_first_ids(entries.insert(k, value), k, n + 1),
        entries.insert(k, value)[k] == value,
{
    assert(step_from(cursor, 1) == n);
    if d > 1 {
        assert(entries.contains_key(step_from(cursor, 1)));
    }
}

/// From a map that holds the identifiers `0 .. n`, `insert` returns `None`
/// exactly when all `2^32` identifiers are taken.
pub proof fn lemma_insert_fails_only_when_full<T>(entries: Map<u32, T>, cursor: u32, n: int)
    requires
        holds_first_ids(entries, cursor, n),
    ensures
        taken_between(entries, cursor, id_space()) <==> n == id_space(),
        n == id_space() ==> forall|k: u32| entries.contains_key(k),
{
    if n < id_space() {
        assert(step_from(cursor, 1) == n);
        assert(!entries.contains_key(step_from(cursor, 1)));
    } else {
        assert forall|j: int| 1 <= j < id_space() implies #[trigger] entries.contains_key(
            step_from(cursor, j),
        ) by {
            assert(step_from(cursor, j) < n);
        }
    }
}

} // verus!
