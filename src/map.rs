//! The map: storage block, addressing, and the mutating operations.
use vstd::prelude::*;

use crate::count::{
    count_true, lemma_count_all_set, lemma_count_drop_last, lemma_count_le_len,
    lemma_count_lt_has_unset, lemma_count_none_set, lemma_count_set_positive, lemma_count_push, lemma_count_update,
};
use crate::{Addressing, MapError, Slot};

verus! {

/// Slot reached after `d` steps of linear probing from `h`, with wraparound at `c`.
pub open spec fn probe(h: int, d: int, c: int) -> int {
    if h + d < c {
        h + d
    } else {
        h + d - c
    }
}

/// Number of probing steps from `h` to `s`, with wraparound at `c`.
pub open spec fn dist(h: int, s: int, c: int) -> int {
    if s >= h {
        s - h
    } else {
        s + c - h
    }
}

/// Filtering by a predicate that every element meets keeps the sequence.
pub proof fn lemma_filter_keeps_all<A>(s: Seq<A>, pred: spec_fn(A) -> bool)
    requires
        forall|i: int| 0 <= i < s.len() ==> pred(#[trigger] s[i]),
    ensures
        s.filter(pred) == s,
    decreases s.len(),
{
    reveal(Seq::filter);
    if s.len() > 0 {
        let d = s.drop_last();
        assert forall|i: int| 0 <= i < d.len() implies pred(#[trigger] d[i]) by {
            assert(d[i] == s[i]);
        }
        lemma_filter_keeps_all(d, pred);
        assert(pred(s[s.len() - 1]));
        assert(s.filter(pred) == d.filter(pred).push(s.last()));
        assert(d.push(s.last()) =~= s);
    } else {
        assert(s.filter(pred) == s);
    }
}

/// A fixed-capacity map from `u32` keys to values.
///
/// The value store has one slot per unit of capacity. The log records the key
/// of each insertion in order; iteration walks the log and resolves each key
/// through the addressing policy. Removal leaves its log entry behind, stale;
/// the mutable cursor and a full log reclaim stale entries by swapping in the
/// last entry of the log.
pub struct ArrayMap<V> {
    addressing: Addressing,
    cap: usize,
    count: usize,
    log: Vec<u32>,
    log_len: usize,
    slots: Vec<Slot<V>>,
}

impl<V: Copy> ArrayMap<V> {
    // ---------------------------------------------------------------- model

    /// Number of slots.
    pub closed spec fn capacity_spec(self) -> nat {
        self.cap as nat
    }

    /// Number of live entries.
    pub closed spec fn len_spec(self) -> nat {
        self.count as nat
    }

    /// The addressing policy fixed at construction.
    pub closed spec fn addressing_spec(self) -> Addressing {
        self.addressing
    }

    /// Number of log positions in use, stale ones included.
    pub closed spec fn log_length(self) -> nat {
        self.log_len as nat
    }

    /// Slot `s` holds a live entry.
    pub closed spec fn full(self, s: int) -> bool {
        self.slots@[s] is Full
    }

    /// Key of the entry in slot `s`.
    pub closed spec fn slot_key(self, s: int) -> u32 {
        self.slots@[s]->key
    }

    /// Log position recorded with the entry in slot `s`.
    pub closed spec fn slot_pos(self, s: int) -> usize {
        self.slots@[s]->pos
    }

    /// Value of the entry in slot `s`.
    pub closed spec fn slot_value(self, s: int) -> V {
        self.slots@[s]->value
    }

    /// First slot that probing for `k` visits.
    pub closed spec fn home(self, k: u32) -> int {
        (k as int) % (self.cap as int)
    }

    /// Slot `s` holds the live entry of key `k`.
    pub closed spec fn holds(self, s: int, k: u32) -> bool {
        0 <= s < self.cap && self.full(s) && self.slot_key(s) == k
    }

    /// Slot `s` holds the live entry recorded at log position `p`.
    pub closed spec fn records(self, s: int, p: int) -> bool {
        0 <= s < self.cap && self.full(s) && self.slot_pos(s) == p
    }

    /// Log position `p` records a live entry.
    pub closed spec fn live(self, p: int) -> bool {
        exists|s: int| self.records(s, p)
    }

    /// The slot that holds the entry recorded at live log position `p`.
    pub closed spec fn slot_of_pos(self, p: int) -> int {
        choose|s: int| self.records(s, p)
    }

    /// Which slots hold a live entry.
    pub closed spec fn full_flags(self) -> Seq<bool> {
        Seq::new(self.cap as nat, |s: int| self.full(s))
    }

    /// Which log positions record a live entry.
    pub closed spec fn live_flags(self) -> Seq<bool> {
        Seq::new(self.log_len as nat, |p: int| self.live(p))
    }

    /// The slot of a live entry is where its addressing policy puts it: under
    /// direct indexing its key, under open addressing a slot reached from the
    /// home slot without passing an empty one.
    pub closed spec fn placed(self, s: int) -> bool {
        let k = self.slot_key(s);
        match self.addressing {
            Addressing::Direct => k as int == s,
            Addressing::Open => forall|d: int|
                #![trigger self.slots@[probe(self.home(k), d, self.cap as int)]]
                0 <= d < dist(self.home(k), s, self.cap as int) ==> !(self.slots@[probe(
                    self.home(k),
                    d,
                    self.cap as int,
                )] is Empty),
        }
    }

    /// Internal consistency of the map.
    pub closed spec fn wf(self) -> bool {
        &&& self.slots@.len() == self.cap
        &&& self.cap > 0
        &&& self.addressing is Direct ==> self.cap <= u32::MAX
        &&& self.log@.len() == self.cap
        &&& self.log_len <= self.cap
        &&& self.count == count_true(self.full_flags())
        &&& self.count == count_true(self.live_flags())
        &&& forall|s: int|
            #![trigger self.slots@[s]]
            0 <= s < self.cap && self.full(s) ==> {
                &&& self.slot_pos(s) < self.log_len
                &&& self.log@[self.slot_pos(s) as int] == self.slot_key(s)
                &&& self.placed(s)
            }
        &&& forall|s1: int, s2: int|
            #![trigger self.slots@[s1], self.slots@[s2]]
            0 <= s1 < self.cap && 0 <= s2 < self.cap && self.full(s1) && self.full(s2)
                && self.slot_key(s1) == self.slot_key(s2) ==> s1 == s2
    }

    /// The live entries, as a map from key to value.
    pub closed spec fn contents(self) -> Map<u32, V> {
        Map::new(
            |k: u32| exists|s: int| self.holds(s, k),
            |k: u32| self.slot_value(choose|s: int| self.holds(s, k)),
        )
    }

    /// Keys that the addressing policy can place: all of them under open
    /// addressing, those below the capacity under direct indexing.
    pub open spec fn key_fits(self, k: u32) -> bool {
        self.addressing_spec() is Open || (k as nat) < self.capacity_spec()
    }

    /// What an insertion of `k` reports.
    pub open spec fn insert_outcome(self, k: u32) -> Result<(), MapError> {
        if self.len_spec() == self.capacity_spec() {
            Err(MapError::CapacityExceeded)
        } else if !self.key_fits(k) {
            Err(MapError::KeyOutOfRange)
        } else {
            Ok(())
        }
    }

    // --------------------------------------------------------------- lemmas

    proof fn lemma_holds_view(self, s: int, k: u32)
        requires
            self.wf(),
            self.holds(s, k),
        ensures
            self.contents().contains_key(k),
            self.contents()[k] == self.slot_value(s),
    {
        assert(self.slots@[s] == self.slots@[s]);
        let t = choose|t: int| self.holds(t, k);
        assert(self.slots@[t] == self.slots@[t]);
    }

    /// In every reachable state the length lies between zero and the capacity.
    pub proof fn lemma_len_within_capacity(self)
        requires
            self.wf(),
        ensures
            0 <= self.len_spec() <= self.capacity_spec(),
    {
        lemma_count_le_len(self.full_flags());
    }

    proof fn lemma_records_unique(self, s: int, t: int, p: int)
        requires
            self.wf(),
            self.records(s, p),
            self.records(t, p),
        ensures
            s == t,
    {
        assert(self.slots@[s] == self.slots@[s]);
        assert(self.slots@[t] == self.slots@[t]);
    }

    /// The two states have the same capacity and addressing policy.
    pub open spec fn same_shape(self, other: Self) -> bool {
        &&& self.capacity_spec() == other.capacity_spec()
        &&& self.addressing_spec() == other.addressing_spec()
    }

    /// Turning the live slot `s0` into a deleted one removes its key.
    proof fn lemma_vacate(old: Self, new: Self, s0: int)
        requires
            old.wf(),
            old.same_shape(new),
            0 <= s0 < old.cap,
            old.full(s0),
            new.slots@ == old.slots@.update(s0, Slot::Deleted),
            new.log@ == old.log@,
            new.log_len == old.log_len,
            new.count + 1 == old.count,
        ensures
            new.wf(),
            new@ == old@.remove(old.slot_key(s0)),
            new.live_flags() == old.live_flags().update(old.slot_pos(s0) as int, false),
    {
        let k0 = old.slot_key(s0);
        let q0 = old.slot_pos(s0) as int;
        assert(old.slots@[s0] == old.slots@[s0]);
        assert(new.full_flags() =~= old.full_flags().update(s0, false));
        lemma_count_update(old.full_flags(), s0, false);
        assert forall|p: int| 0 <= p < new.log_len implies new.live(p) == (old.live(p) && p != q0) by {
            if new.live(p) {
                let t = choose|t: int| new.records(t, p);
                assert(old.records(t, p));
                if p == q0 {
                    old.lemma_records_unique(s0, t, p);
                }
            }
            if old.live(p) && p != q0 {
                let t = choose|t: int| old.records(t, p);
                assert(new.records(t, p));
            }
        }
        assert(old.records(s0, q0));
        assert(new.live_flags() =~= old.live_flags().update(q0, false));
        lemma_count_update(old.live_flags(), q0, false);
        assert forall|s: int| 0 <= s < new.cap && new.full(s) implies {
            &&& new.slot_pos(s) < new.log_len
            &&& new.log@[new.slot_pos(s) as int] == new.slot_key(s)
            &&& new.placed(s)
        } by {
            assert(old.slots@[s] == old.slots@[s]);
            assert(new.slots@[s] == old.slots@[s]);
            if new.addressing is Open {
                let k = new.slot_key(s);
                assert forall|d: int|
                    0 <= d < dist(new.home(k), s, new.cap as int) implies !(#[trigger] new.slots@[probe(
                        new.home(k),
                        d,
                        new.cap as int,
                    )] is Empty) by {
                    assert(!(old.slots@[probe(old.home(k), d, old.cap as int)] is Empty));
                }
            }
        }
        assert forall|s1: int, s2: int|
            #![trigger new.slots@[s1], new.slots@[s2]]
            0 <= s1 < new.cap && 0 <= s2 < new.cap && new.full(s1) && new.full(s2)
                && new.slot_key(s1) == new.slot_key(s2) implies s1 == s2 by {
            assert(old.slots@[s1] == old.slots@[s1]);
            assert(old.slots@[s2] == old.slots@[s2]);
        }
        assert forall|k: u32| #[trigger] new@.contains_key(k) == old@.remove(k0).contains_key(k) by {
            if new@.contains_key(k) {
                let t = choose|t: int| new.holds(t, k);
                assert(old.holds(t, k));
                old.lemma_holds_view(t, k);
            }
            if old@.contains_key(k) && k != k0 {
                let t = choose|t: int| old.holds(t, k);
                assert(new.holds(t, k));
            }
        }
        assert forall|k: u32| #[trigger] new@.contains_key(k) implies new@[k] == old@[k] by {
            let t = choose|t: int| new.holds(t, k);
            assert(old.holds(t, k));
            new.lemma_holds_view(t, k);
            old.lemma_holds_view(t, k);
        }
        assert(new@ =~= old@.remove(k0));
    }

    /// Giving the live slot `s0` a new value rebinds its key.
    proof fn lemma_set_value(old: Self, new: Self, s0: int, v: V)
        requires
            old.wf(),
            old.same_shape(new),
            0 <= s0 < old.cap,
            old.full(s0),
            new.slots@ == old.slots@.update(
                s0,
                Slot::Full { key: old.slot_key(s0), value: v, pos: old.slot_pos(s0) },
            ),
            new.log@ == old.log@,
            new.log_len == old.log_len,
            new.count == old.count,
        ensures
            new.wf(),
            new@ == old@.insert(old.slot_key(s0), v),
            forall|p: int| #[trigger] new.live(p) == old.live(p),
            new.live_flags() == old.live_flags(),
    {
        let k0 = old.slot_key(s0);
        assert(old.slots@[s0] == old.slots@[s0]);
        assert(new.full_flags() =~= old.full_flags());
        assert forall|p: int| #[trigger] new.live(p) == old.live(p) by {
            if new.live(p) {
                let t = choose|t: int| new.records(t, p);
                assert(old.records(t, p));
            }
            if old.live(p) {
                let t = choose|t: int| old.records(t, p);
                assert(new.records(t, p));
            }
        }
        assert(new.live_flags() =~= old.live_flags());
        assert forall|s: int| 0 <= s < new.cap && new.full(s) implies {
            &&& new.slot_pos(s) < new.log_len
            &&& new.log@[new.slot_pos(s) as int] == new.slot_key(s)
            &&& new.placed(s)
        } by {
            assert(old.slots@[s] == old.slots@[s]);
            if new.addressing is Open {
                let k = new.slot_key(s);
                assert forall|d: int|
                    0 <= d < dist(new.home(k), s, new.cap as int) implies !(#[trigger] new.slots@[probe(
                        new.home(k),
                        d,
                        new.cap as int,
                    )] is Empty) by {
                    assert(!(old.slots@[probe(old.home(k), d, old.cap as int)] is Empty));
                }
            }
        }
        assert forall|s1: int, s2: int|
            #![trigger new.slots@[s1], new.slots@[s2]]
            0 <= s1 < new.cap && 0 <= s2 < new.cap && new.full(s1) && new.full(s2)
                && new.slot_key(s1) == new.slot_key(s2) implies s1 == s2 by {
            assert(old.slots@[s1] == old.slots@[s1]);
            assert(old.slots@[s2] == old.slots@[s2]);
        }
        assert forall|k: u32| #[trigger] new@.contains_key(k) == old@.contains_key(k) by {
            if new@.contains_key(k) {
                let t = choose|t: int| new.holds(t, k);
                assert(old.holds(t, k));
            }
            if old@.contains_key(k) {
                let t = choose|t: int| old.holds(t, k);
                assert(new.holds(t, k));
            }
        }
        assert forall|k: u32| #[trigger] new@.contains_key(k) implies new@[k] == old@.insert(
            k0,
            v,
        )[k] by {
            let t = choose|t: int| new.holds(t, k);
            assert(old.holds(t, k));
            new.lemma_holds_view(t, k);
            old.lemma_holds_view(t, k);
            if k == k0 {
                old.lemma_holds_view(s0, k0);
                assert(t == s0);
            }
        }
        old.lemma_holds_view(s0, k0);
        assert(new@ =~= old@.insert(k0, v));
    }

    /// Storing a new key in the free slot `s0` and recording it at the end of
    /// the log adds the key.
    proof fn lemma_place(old: Self, new: Self, s0: int, k: u32, v: V)
        requires
            old.wf(),
            old.same_shape(new),
            0 <= s0 < old.cap,
            !old.full(s0),
            forall|t: int| !old.holds(t, k),
            old.log_len < old.cap,
            old.addressing is Direct ==> s0 == k as int,
            old.addressing is Open ==> forall|d: int|
                0 <= d < dist(old.home(k), s0, old.cap as int) ==> old.full(
                    probe(old.home(k), d, old.cap as int),
                ),
            new.slots@ == old.slots@.update(s0, Slot::Full { key: k, value: v, pos: old.log_len }),
            new.log@ == old.log@.update(old.log_len as int, k),
            new.log_len == old.log_len + 1,
            new.count == old.count + 1,
        ensures
            new.wf(),
            new@ == old@.insert(k, v),
            new.live_flags() == old.live_flags().push(true),
    {
        let q0 = old.log_len as int;
        assert(new.full_flags() =~= old.full_flags().update(s0, true));
        lemma_count_update(old.full_flags(), s0, true);
        assert(new.records(s0, q0));
        assert forall|p: int| 0 <= p < old.log_len implies new.live(p) == old.live(p) by {
            if new.live(p) {
                let t = choose|t: int| new.records(t, p);
                assert(old.records(t, p));
            }
            if old.live(p) {
                let t = choose|t: int| old.records(t, p);
                assert(old.slots@[t] == old.slots@[t]);
                assert(new.records(t, p));
            }
        }
        assert(new.live_flags() =~= old.live_flags().push(true));
        lemma_count_push(old.live_flags(), true);
        assert forall|s: int| 0 <= s < new.cap && new.full(s) implies {
            &&& new.slot_pos(s) < new.log_len
            &&& new.log@[new.slot_pos(s) as int] == new.slot_key(s)
            &&& new.placed(s)
        } by {
            assert(old.slots@[s] == old.slots@[s]);
            if new.addressing is Open {
                let kk = new.slot_key(s);
                assert forall|d: int|
                    0 <= d < dist(new.home(kk), s, new.cap as int) implies !(#[trigger] new.slots@[probe(
                        new.home(kk),
                        d,
                        new.cap as int,
                    )] is Empty) by {
                    let i = probe(old.home(kk), d, old.cap as int);
                    if s != s0 {
                        assert(!(old.slots@[i] is Empty));
                    } else {
                        assert(old.full(i));
                    }
                }
            }
        }
        assert forall|s1: int, s2: int|
            #![trigger new.slots@[s1], new.slots@[s2]]
            0 <= s1 < new.cap && 0 <= s2 < new.cap && new.full(s1) && new.full(s2)
                && new.slot_key(s1) == new.slot_key(s2) implies s1 == s2 by {
            assert(old.slots@[s1] == old.slots@[s1]);
            assert(old.slots@[s2] == old.slots@[s2]);
            if s1 != s0 && s2 == s0 {
                assert(old.holds(s1, k));
            }
            if s2 != s0 && s1 == s0 {
                assert(old.holds(s2, k));
            }
        }
        assert forall|kk: u32| #[trigger] new@.contains_key(kk) == old@.insert(k, v).contains_key(
            kk,
        ) by {
            if new@.contains_key(kk) {
                let t = choose|t: int| new.holds(t, kk);
                if t != s0 {
                    assert(old.holds(t, kk));
                }
            }
            if old@.contains_key(kk) {
                let t = choose|t: int| old.holds(t, kk);
                assert(new.holds(t, kk));
            }
            if kk == k {
                assert(new.holds(s0, k));
            }
        }
        assert forall|kk: u32| #[trigger] new@.contains_key(kk) implies new@[kk] == old@.insert(
            k,
            v,
        )[kk] by {
            let t = choose|t: int| new.holds(t, kk);
            new.lemma_holds_view(t, kk);
            if t != s0 {
                assert(old.holds(t, kk));
                old.lemma_holds_view(t, kk);
            }
        }
        assert(new@ =~= old@.insert(k, v));
    }

    /// Moving the last log entry into the stale position `p` and shortening
    /// the log keeps the live entries, and their count, as they were.
    proof fn lemma_reclaim(old: Self, new: Self, p: int)
        requires
            old.wf(),
            old.same_shape(new),
            0 <= p < old.log_len,
            !old.live(p),
            new.log@ == old.log@.update(p, old.log@[old.log_len - 1]),
            new.log_len == old.log_len - 1,
            new.count == old.count,
            old.live(old.log_len - 1) ==> new.slots@ == old.slots@.update(
                old.slot_of_pos(old.log_len - 1),
                Slot::Full {
                    key: old.slot_key(old.slot_of_pos(old.log_len - 1)),
                    value: old.slot_value(old.slot_of_pos(old.log_len - 1)),
                    pos: p as usize,
                },
            ),
            !old.live(old.log_len - 1) ==> new.slots@ == old.slots@,
        ensures
            new.wf(),
            new@ == old@,
            forall|j: int|
                0 <= j < new.log_len ==> #[trigger] new.live(j) == if j == p {
                    old.live(old.log_len - 1)
                } else {
                    old.live(j)
                },
            forall|j: int|
                0 <= j < new.log_len && new.live(j) ==> #[trigger] new.slot_value(new.slot_of_pos(j))
                    == if j == p {
                    old.slot_value(old.slot_of_pos(old.log_len - 1))
                } else {
                    old.slot_value(old.slot_of_pos(j))
                },
    {
        let q = old.log_len - 1;
        let ql = old.live(q);
        let sq = old.slot_of_pos(q);
        if ql {
            assert(old.records(sq, q));
            assert(old.slots@[sq] == old.slots@[sq]);
        }
        assert(new.full_flags() =~= old.full_flags());
        assert forall|j: int| 0 <= j < new.log_len implies #[trigger] new.live(j) == if j == p {
            ql
        } else {
            old.live(j)
        } by {
            if new.live(j) {
                let t = choose|t: int| new.records(t, j);
                if ql && t == sq {
                    assert(j == p);
                } else {
                    assert(old.records(t, j));
                }
            }
            if j == p && ql {
                assert(new.records(sq, j));
            }
            if j != p && old.live(j) {
                let t = choose|t: int| old.records(t, j);
                if ql && t == sq {
                    old.lemma_records_unique(t, sq, j);
                }
                assert(new.records(t, j));
            }
        }
        assert forall|j: int|
            0 <= j < new.log_len && new.live(j) implies #[trigger] new.slot_value(new.slot_of_pos(j))
                == if j == p {
                old.slot_value(sq)
            } else {
                old.slot_value(old.slot_of_pos(j))
            } by {
            let t = new.slot_of_pos(j);
            assert(new.records(t, j));
            if ql && t == sq {
                assert(j == p);
            } else {
                assert(old.records(t, j));
                if j == p {
                    assert(false);
                }
                old.lemma_records_unique(t, old.slot_of_pos(j), j);
            }
        }
        let u = old.live_flags().update(p, ql);
        assert(new.live_flags() =~= u.drop_last());
        lemma_count_update(old.live_flags(), p, ql);
        lemma_count_drop_last(u);
        assert forall|s: int| 0 <= s < new.cap && new.full(s) implies {
            &&& new.slot_pos(s) < new.log_len
            &&& new.log@[new.slot_pos(s) as int] == new.slot_key(s)
            &&& new.placed(s)
        } by {
            assert(old.slots@[s] == old.slots@[s]);
            if !(ql && s == sq) {
                assert(old.records(s, old.slot_pos(s) as int));
                if old.slot_pos(s) == q {
                    assert(false);
                }
                if old.slot_pos(s) == p {
                    assert(false);
                }
            }
            if new.addressing is Open {
                let k = new.slot_key(s);
                assert forall|d: int|
                    0 <= d < dist(new.home(k), s, new.cap as int) implies !(#[trigger] new.slots@[probe(
                        new.home(k),
                        d,
                        new.cap as int,
                    )] is Empty) by {
                    assert(!(old.slots@[probe(old.home(k), d, old.cap as int)] is Empty));
                }
            }
        }
        assert forall|s1: int, s2: int|
            #![trigger new.slots@[s1], new.slots@[s2]]
            0 <= s1 < new.cap && 0 <= s2 < new.cap && new.full(s1) && new.full(s2)
                && new.slot_key(s1) == new.slot_key(s2) implies s1 == s2 by {
            assert(old.slots@[s1] == old.slots@[s1]);
            assert(old.slots@[s2] == old.slots@[s2]);
        }
        assert forall|k: u32| #[trigger] new@.contains_key(k) == old@.contains_key(k) by {
            if new@.contains_key(k) {
                let t = choose|t: int| new.holds(t, k);
                assert(old.holds(t, k));
            }
            if old@.contains_key(k) {
                let t = choose|t: int| old.holds(t, k);
                assert(new.holds(t, k));
            }
        }
        assert forall|k: u32| #[trigger] new@.contains_key(k) implies new@[k] == old@[k] by {
            let t = choose|t: int| new.holds(t, k);
            assert(old.holds(t, k));
            new.lemma_holds_view(t, k);
            old.lemma_holds_view(t, k);
        }
        assert(new@ =~= old@);
    }

    /// Value of the live entry recorded at log position `j`.
    pub closed spec fn value_at(self, j: int) -> V {
        self.slot_value(self.slot_of_pos(j))
    }

    /// Live entries recorded at log positions from `p` on, in log order.
    pub closed spec fn entries_from(self, p: nat) -> Seq<(u32, V)>
        decreases self.log_length() - p,
    {
        if p >= self.log_len {
            Seq::empty()
        } else if self.live(p as int) {
            seq![(self.log@[p as int], self.slot_value(self.slot_of_pos(p as int)))] + self.entries_from(p + 1)
        } else {
            self.entries_from(p + 1)
        }
    }

    /// Live entries in log order: what a read-only traversal yields.
    pub open spec fn entries(self) -> Seq<(u32, V)> {
        self.entries_from(0)
    }

    /// Keys of the live entries recorded at log positions from `p` on.
    pub closed spec fn keys_from(self, p: nat) -> Set<u32> {
        Set::new(
            |k: u32|
                exists|j: int| p <= j < self.log_len && #[trigger] self.live(j) && self.log@[j] == k,
        )
    }

    /// Key recorded at log position `p`, if that position is in use and live.
    pub closed spec fn live_key(self, p: int) -> Option<u32> {
        if 0 <= p < self.log_len && self.live(p) {
            Some(self.log@[p])
        } else {
            None
        }
    }

    /// Every log position in use records a live entry.
    pub closed spec fn is_compact(self) -> bool {
        forall|j: int| 0 <= j < self.log_len ==> #[trigger] self.live(j)
    }

    /// Every log position below `p` is in use and records a live entry.
    pub closed spec fn live_below(self, p: nat) -> bool {
        p <= self.log_len && forall|j: int| 0 <= j < p ==> #[trigger] self.live(j)
    }

    proof fn lemma_head_key_fresh(self, p: nat, x: (u32, V), i: int)
        requires
            self.wf(),
            p < self.log_len,
            self.live(p as int),
            0 <= i < self.entries_from(p + 1).len(),
            x == self.entries_from(p + 1)[i],
        ensures
            x.0 != self.log@[p as int],
    {
        let j = self.lemma_entry_source(p + 1, i);
        let tj = self.slot_of_pos(j);
        let tp = self.slot_of_pos(p as int);
        assert(self.records(tj, j));
        assert(self.records(tp, p as int));
        assert(self.slots@[tj] == self.slots@[tj]);
        assert(self.slots@[tp] == self.slots@[tp]);
    }

    proof fn lemma_entries_shape(self, p: nat)
        requires
            p <= self.log_len,
        ensures
            self.entries_from(p).len() == count_true(
                self.live_flags().subrange(p as int, self.log_len as int),
            ),
            forall|j: int|
                p <= j < self.log_len && #[trigger] self.live(j) ==> exists|i: int|
                    0 <= i < self.entries_from(p).len() && self.entries_from(p)[i] == (
                        self.log@[j],
                        self.slot_value(self.slot_of_pos(j)),
                    ),
    {
        self.lemma_entries_len(p);
        assert forall|j: int| p <= j < self.log_len && #[trigger] self.live(j) implies exists|i: int|
            0 <= i < self.entries_from(p).len() && self.entries_from(p)[i] == (
                self.log@[j],
                self.slot_value(self.slot_of_pos(j)),
            ) by {
            let i = self.lemma_entry_index(p, j);
        }
    }

    proof fn lemma_entries_len(self, p: nat)
        requires
            p <= self.log_len,
        ensures
            self.entries_from(p).len() == count_true(
                self.live_flags().subrange(p as int, self.log_len as int),
            ),
        decreases self.log_length() - p,
    {
        if p < self.log_len {
            self.lemma_entries_len(p + 1);
            let f = self.live_flags().subrange(p as int, self.log_len as int);
            assert(f.subrange(1, f.len() as int) =~= self.live_flags().subrange(
                p + 1 as int,
                self.log_len as int,
            ));
            assert(f[0] == self.live(p as int));
        } else {
            assert(self.live_flags().subrange(p as int, self.log_len as int) =~= Seq::<bool>::empty());
        }
    }

    /// Log position that the `i`-th entry from position `p` on comes from.
    proof fn lemma_entry_source(self, p: nat, i: int) -> (j: int)
        requires
            p <= self.log_len,
            0 <= i < self.entries_from(p).len(),
        ensures
            p <= j < self.log_len,
            self.live(j),
            self.entries_from(p)[i] == (self.log@[j], self.slot_value(self.slot_of_pos(j))),
        decreases self.log_length() - p,
    {
        if p >= self.log_len {
            assert(self.entries_from(p).len() == 0);
            0
        } else if self.live(p as int) {
            let r = self.entries_from(p + 1);
            assert(self.entries_from(p) == seq![(self.log@[p as int], self.slot_value(self.slot_of_pos(p as int)))] + r);
            if i == 0 {
                p as int
            } else {
                self.lemma_entry_source(p + 1, i - 1)
            }
        } else {
            self.lemma_entry_source(p + 1, i)
        }
    }

    /// Index, among the entries from position `p` on, of the entry recorded
    /// at live position `j`.
    proof fn lemma_entry_index(self, p: nat, j: int) -> (i: int)
        requires
            p <= j < self.log_len,
            self.live(j),
        ensures
            0 <= i < self.entries_from(p).len(),
            self.entries_from(p)[i] == (self.log@[j], self.slot_value(self.slot_of_pos(j))),
        decreases self.log_length() - p,
    {
        if self.live(p as int) {
            let r = self.entries_from(p + 1);
            assert(self.entries_from(p) == seq![(self.log@[p as int], self.slot_value(self.slot_of_pos(p as int)))] + r);
            if j == p {
                0
            } else {
                let k = self.lemma_entry_index(p + 1, j);
                k + 1
            }
        } else {
            self.lemma_entry_index(p + 1, j)
        }
    }

    proof fn lemma_entries_keys_distinct(self, p: nat)
        requires
            self.wf(),
            p <= self.log_len,
        ensures
            forall|i: int, j: int|
                0 <= i < self.entries_from(p).len() && 0 <= j < self.entries_from(p).len() && i != j
                    ==> #[trigger] self.entries_from(p)[i].0 != #[trigger] self.entries_from(p)[j].0,
        decreases self.log_length() - p,
    {
        let e = self.entries_from(p);
        if p < self.log_len {
            self.lemma_entries_keys_distinct(p + 1);
            let r = self.entries_from(p + 1);
            if self.live(p as int) {
                let head = (self.log@[p as int], self.slot_value(self.slot_of_pos(p as int)));
                assert(e =~= seq![head] + r);
                assert forall|i: int, j: int|
                    0 <= i < e.len() && 0 <= j < e.len() && i != j implies #[trigger] e[i].0
                    != #[trigger] e[j].0 by {
                    if i > 0 && j > 0 {
                        assert(e[i] == r[i - 1]);
                        assert(e[j] == r[j - 1]);
                    } else if i == 0 {
                        assert(e[j] == r[j - 1]);
                        self.lemma_head_key_fresh(p, r[j - 1], j - 1);
                    } else {
                        assert(e[i] == r[i - 1]);
                        self.lemma_head_key_fresh(p, r[i - 1], i - 1);
                    }
                }
            } else {
                assert(e =~= r);
            }
        }
    }

    /// What a read-only traversal yields is the live content: each entry once,
    /// with its current value, as many entries as the map's length.
    pub proof fn lemma_entries_are_contents(self)
        requires
            self.wf(),
        ensures
            forall|i: int|
                0 <= i < self.entries().len() ==> self@.contains_key(#[trigger] self.entries()[i].0)
                    && self@[self.entries()[i].0] == self.entries()[i].1,
            forall|k: u32|
                #[trigger] self@.contains_key(k) ==> exists|i: int|
                    0 <= i < self.entries().len() && self.entries()[i] == (k, self@[k]),
            forall|i: int, j: int|
                0 <= i < self.entries().len() && 0 <= j < self.entries().len() && i != j
                    ==> #[trigger] self.entries()[i].0 != #[trigger] self.entries()[j].0,
            self.entries().len() == self.len_spec(),
            self@.len() == self.len_spec(),
            self@.dom().finite(),
    {
        let e = self.entries();
        self.lemma_entries_shape(0);
        self.lemma_entries_keys_distinct(0);
        assert(self.live_flags().subrange(0, self.log_len as int) =~= self.live_flags());
        assert forall|i: int| #![trigger e[i]] 0 <= i < e.len() implies self@.contains_key(e[i].0)
            && self@[e[i].0] == e[i].1 by {
            let j = self.lemma_entry_source(0, i);
            let t = self.slot_of_pos(j);
            assert(self.records(t, j));
            assert(self.slots@[t] == self.slots@[t]);
            self.lemma_holds_view(t, self.log@[j]);
        }
        assert forall|k: u32| #[trigger] self@.contains_key(k) implies exists|i: int|
            0 <= i < e.len() && e[i] == (k, self@[k]) by {
            let t = choose|t: int| self.holds(t, k);
            assert(self.slots@[t] == self.slots@[t]);
            let j = self.slot_pos(t) as int;
            assert(self.records(t, j));
            self.lemma_records_unique(t, self.slot_of_pos(j), j);
            self.lemma_holds_view(t, k);
            assert(self.live(j));
        }
        let keys = e.map_values(|x: (u32, V)| x.0);
        assert(keys.no_duplicates()) by {
            assert forall|i: int, j: int|
                0 <= i < keys.len() && 0 <= j < keys.len() && i != j implies keys[i] != keys[j] by {
                assert(keys[i] == e[i].0);
                assert(keys[j] == e[j].0);
            }
        }
        assert forall|k: u32| keys.to_set().contains(k) == self@.dom().contains(k) by {
            if self@.contains_key(k) {
                let i = choose|i: int| 0 <= i < e.len() && e[i] == (k, self@[k]);
                assert(keys[i] == k);
            }
            if keys.to_set().contains(k) {
                let i = choose|i: int| 0 <= i < keys.len() && keys[i] == k;
                assert(keys[i] == e[i].0);
            }
        }
        assert(keys.to_set() =~= self@.dom());
        keys.unique_seq_to_set();
    }

    proof fn lemma_keys_from_step(self, j: nat)
        requires
            self.wf(),
            j < self.log_len,
        ensures
            self.live(j as int) ==> self.keys_from(j) == self.keys_from(j + 1).insert(
                self.log@[j as int],
            ) && !self.keys_from(j + 1).contains(self.log@[j as int]),
            !self.live(j as int) ==> self.keys_from(j) == self.keys_from(j + 1),
    {
        let k = self.log@[j as int];
        if self.live(j as int) {
            assert(self.keys_from(j) =~= self.keys_from(j + 1).insert(k));
            if self.keys_from(j + 1).contains(k) {
                let x = choose|x: int|
                    j + 1 <= x < self.log_len && #[trigger] self.live(x) && self.log@[x] == k;
                let tx = self.slot_of_pos(x);
                let tj = self.slot_of_pos(j as int);
                assert(self.records(tx, x));
                assert(self.records(tj, j as int));
                assert(self.slots@[tx] == self.slots@[tx]);
                assert(self.slots@[tj] == self.slots@[tj]);
            }
        } else {
            assert(self.keys_from(j) =~= self.keys_from(j + 1));
        }
    }

    proof fn lemma_keys_from_end(self, j: nat)
        requires
            j >= self.log_len,
        ensures
            self.keys_from(j) == Set::<u32>::empty(),
            self.entries_from(j) == Seq::<(u32, V)>::empty(),
    {
        assert(self.keys_from(j) =~= Set::<u32>::empty());
    }

    /// Positions from the start of the log, their liveness and keys, are the
    /// same in the two states.
    pub closed spec fn same_log(self, other: Self) -> bool {
        &&& self.log_len == other.log_len
        &&& self.log@ == other.log@
        &&& forall|j: int| #[trigger] self.live(j) == other.live(j)
    }

    /// Two states with the same log have the same live keys from each position.
    pub proof fn lemma_same_log(self, other: Self)
        requires
            self.same_log(other),
        ensures
            forall|p: nat| #[trigger] self.keys_from(p) == other.keys_from(p),
            forall|p: int| #[trigger] self.live_key(p) == other.live_key(p),
            forall|n: nat| #[trigger] self.live_below(n) == other.live_below(n),
            self.log_length() == other.log_length(),
    {
        assert forall|p: nat| #[trigger] self.keys_from(p) == other.keys_from(p) by {
            assert forall|x: u32| self.keys_from(p).contains(x) == other.keys_from(p).contains(x) by {
                if self.keys_from(p).contains(x) {
                    let y = choose|y: int| p <= y < self.log_len && #[trigger] self.live(y) && self.log@[y] == x;
                    assert(other.live(y));
                }
                if other.keys_from(p).contains(x) {
                    let y = choose|y: int| p <= y < other.log_len && #[trigger] other.live(y) && other.log@[y] == x;
                    assert(self.live(y));
                }
            }
            assert(self.keys_from(p) =~= other.keys_from(p));
        }
        assert forall|n: nat| #[trigger] self.live_below(n) == other.live_below(n) by {
            if self.live_below(n) {
                assert forall|j: int| 0 <= j < n implies #[trigger] other.live(j) by {
                    assert(self.live(j));
                }
            }
            if other.live_below(n) {
                assert forall|j: int| 0 <= j < n implies #[trigger] self.live(j) by {
                    assert(other.live(j));
                }
            }
        }
    }

    /// At the start of the log, the live keys are the map's keys.
    pub proof fn lemma_keys_from_start(self)
        requires
            self.wf(),
        ensures
            self.keys_from(0) == self@.dom(),
            self.live_below(0),
    {
        assert forall|k: u32| self.keys_from(0).contains(k) == self@.dom().contains(k) by {
            if self.keys_from(0).contains(k) {
                let j = choose|j: int| 0 <= j < self.log_len && #[trigger] self.live(j) && self.log@[j] == k;
                let t = self.slot_of_pos(j);
                assert(self.records(t, j));
                assert(self.slots@[t] == self.slots@[t]);
                assert(self.holds(t, k));
            }
            if self@.dom().contains(k) {
                let t = choose|t: int| self.holds(t, k);
                assert(self.slots@[t] == self.slots@[t]);
                assert(self.records(t, self.slot_pos(t) as int));
                assert(self.live(self.slot_pos(t) as int));
            }
        }
        assert(self.keys_from(0) =~= self@.dom());
    }

    /// A log whose every position in use is live has one position per entry,
    /// and a read-only traversal yields an entry at each of them.
    pub proof fn lemma_compact_log(self, n: nat)
        requires
            self.wf(),
            self.live_below(n),
            n >= self.log_length(),
        ensures
            self.is_compact(),
            self.log_length() == self.len_spec(),
            self.entries().len() == self.log_length(),
    {
        assert forall|i: int| 0 <= i < self.live_flags().len() implies self.live_flags()[i] by {
            assert(self.live(i));
        }
        lemma_count_all_set(self.live_flags());
        self.lemma_entries_are_contents();
    }

    proof fn lemma_same_slot_same_value(old: Self, new: Self, t: int, j: int)
        requires
            new.wf(),
            old.records(t, j),
            new.records(t, j),
            old.slots@[t] == new.slots@[t],
            old.slot_of_pos(j) == t,
        ensures
            new.live(j),
            new.value_at(j) == old.value_at(j),
            new.slot_of_pos(j) == t,
    {
        new.lemma_records_unique(t, new.slot_of_pos(j), j);
    }

    /// Traversal after appending a live position at the end of the log.
    proof fn lemma_entries_append(old: Self, new: Self, p: nat, k: u32, v: V)
        requires
            p <= old.log_len,
            new.log_len == old.log_len + 1,
            new.log@ == old.log@.update(old.log_len as int, k),
            old.log_len < old.log@.len(),
            forall|j: int| 0 <= j < old.log_len ==> #[trigger] new.live(j) == old.live(j),
            forall|j: int|
                0 <= j < old.log_len && old.live(j) ==> #[trigger] new.value_at(j) == old.value_at(j),
            new.live(old.log_len as int),
            new.value_at(old.log_len as int) == v,
        ensures
            new.entries_from(p) == old.entries_from(p).push((k, v)),
        decreases old.log_len - p,
    {
        if p < old.log_len {
            ArrayMap::lemma_entries_append(old, new, p + 1, k, v);
            if old.live(p as int) {
                let head = (old.log@[p as int], old.value_at(p as int));
                assert(new.live(p as int));
                assert(new.log@[p as int] == old.log@[p as int]);
                assert(new.value_at(p as int) == old.value_at(p as int));
                assert(new.entries_from(p) == seq![head] + new.entries_from(p + 1));
                assert(old.entries_from(p) == seq![head] + old.entries_from(p + 1));
                assert(new.entries_from(p) =~= old.entries_from(p).push((k, v)));
            } else {
                assert(!new.live(p as int));
                assert(new.entries_from(p) =~= old.entries_from(p).push((k, v)));
            }
        } else {
            assert(old.entries_from(p) =~= Seq::<(u32, V)>::empty());
            assert(new.entries_from(p + 1) =~= Seq::<(u32, V)>::empty());
            assert(new.entries_from(p) =~= old.entries_from(p).push((k, v)));
        }
    }

    /// Traversal after the value of key `k` changed in place.
    proof fn lemma_entries_revalue(old: Self, new: Self, p: nat, k: u32, v: V)
        requires
            p <= old.log_len,
            new.log_len == old.log_len,
            new.log@ == old.log@,
            forall|j: int| #[trigger] new.live(j) == old.live(j),
            forall|j: int|
                0 <= j < old.log_len && old.live(j) ==> #[trigger] new.value_at(j) == if old.log@[j]
                    == k {
                    v
                } else {
                    old.value_at(j)
                },
        ensures
            new.entries_from(p) == old.entries_from(p).map_values(
                |e: (u32, V)|
                    if e.0 == k {
                        (k, v)
                    } else {
                        e
                    },
            ),
        decreases old.log_len - p,
    {
        let f = |e: (u32, V)|
            if e.0 == k {
                (k, v)
            } else {
                e
            };
        if p < old.log_len {
            ArrayMap::lemma_entries_revalue(old, new, p + 1, k, v);
            if old.live(p as int) {
                let head = (old.log@[p as int], old.value_at(p as int));
                assert(new.live(p as int));
                assert(new.value_at(p as int) == if old.log@[p as int] == k {
                    v
                } else {
                    old.value_at(p as int)
                });
                assert(new.entries_from(p) == seq![f(head)] + new.entries_from(p + 1));
                assert(old.entries_from(p) =~= seq![head] + old.entries_from(p + 1));
                assert((seq![head] + old.entries_from(p + 1)).map_values(f) =~= seq![f(head)]
                    + old.entries_from(p + 1).map_values(f));
                assert(new.entries_from(p) =~= old.entries_from(p).map_values(f));
            } else {
                assert(new.entries_from(p) =~= old.entries_from(p).map_values(f));
            }
        } else {
            assert(new.entries_from(p) =~= old.entries_from(p).map_values(f));
        }
    }

    /// Traversal after log position `j0`, recording key `k`, turned stale.
    proof fn lemma_entries_drop(old: Self, new: Self, p: nat, j0: int, k: u32)
        requires
            p <= old.log_len,
            new.log_len == old.log_len,
            new.log@ == old.log@,
            forall|j: int| 0 <= j < old.log_len ==> #[trigger] new.live(j) == (old.live(j) && j != j0),
            forall|j: int|
                0 <= j < old.log_len && new.live(j) ==> #[trigger] new.value_at(j) == old.value_at(j),
            0 <= j0 < old.log_len,
            old.log@[j0] == k,
            forall|j: int| 0 <= j < old.log_len && #[trigger] old.live(j) && j != j0 ==> old.log@[j] != k,
        ensures
            new.entries_from(p) == old.entries_from(p).filter(|e: (u32, V)| e.0 != k),
        decreases old.log_len - p,
    {
        let f = |e: (u32, V)| e.0 != k;
        if p < old.log_len {
            ArrayMap::lemma_entries_drop(old, new, p + 1, j0, k);
            let rest = old.entries_from(p + 1);
            if old.live(p as int) {
                let head = (old.log@[p as int], old.value_at(p as int));
                assert(old.entries_from(p) =~= seq![head] + rest);
                Seq::filter_distributes_over_add(seq![head], rest, f);
                reveal_with_fuel(Seq::filter, 2);
                assert(seq![head].drop_last() =~= Seq::<(u32, V)>::empty());
                if p as int == j0 {
                    assert(seq![head].filter(f) =~= Seq::<(u32, V)>::empty());
                    assert(new.entries_from(p) =~= old.entries_from(p).filter(f));
                } else {
                    assert(new.live(p as int));
                    assert(new.value_at(p as int) == old.value_at(p as int));
                    assert(new.entries_from(p) == seq![head] + new.entries_from(p + 1));
                    assert(seq![head].filter(f) =~= seq![head]);
                    assert(new.entries_from(p) =~= old.entries_from(p).filter(f));
                }
            } else {
                assert(new.entries_from(p) =~= old.entries_from(p).filter(f));
            }
        } else {
            assert(old.entries_from(p) =~= Seq::<(u32, V)>::empty());
            assert(new.entries_from(p) =~= old.entries_from(p).filter(f));
        }
    }

    proof fn lemma_place_entries(old: Self, new: Self, s0: int, k: u32, v: V)
        requires
            old.wf(),
            new.wf(),
            0 <= s0 < old.cap,
            !old.full(s0),
            old.log_len < old.cap,
            new.slots@ == old.slots@.update(s0, Slot::Full { key: k, value: v, pos: old.log_len }),
            new.log@ == old.log@.update(old.log_len as int, k),
            new.log_len == old.log_len + 1,
            new.live_flags() == old.live_flags().push(true),
        ensures
            new.entries() == old.entries().push((k, v)),
    {
        assert forall|j: int| 0 <= j < old.log_len implies #[trigger] new.live(j) == old.live(j) by {
            assert(new.live_flags()[j] == old.live_flags()[j]);
        }
        assert forall|j: int| 0 <= j < old.log_len && old.live(j) implies #[trigger] new.value_at(j)
            == old.value_at(j) by {
            let t = old.slot_of_pos(j);
            assert(old.records(t, j));
            assert(new.records(t, j));
            ArrayMap::lemma_same_slot_same_value(old, new, t, j);
        }
        let q0 = old.log_len as int;
        assert(new.records(s0, q0));
        new.lemma_records_unique(s0, new.slot_of_pos(q0), q0);
        ArrayMap::lemma_entries_append(old, new, 0, k, v);
    }

    proof fn lemma_set_value_entries(old: Self, new: Self, s0: int, v: V)
        requires
            old.wf(),
            new.wf(),
            0 <= s0 < old.cap,
            old.full(s0),
            new.slots@ == old.slots@.update(
                s0,
                Slot::Full { key: old.slot_key(s0), value: v, pos: old.slot_pos(s0) },
            ),
            new.log@ == old.log@,
            new.log_len == old.log_len,
            forall|p: int| #[trigger] new.live(p) == old.live(p),
        ensures
            new.entries() == old.entries().map_values(
                |e: (u32, V)|
                    if e.0 == old.slot_key(s0) {
                        (old.slot_key(s0), v)
                    } else {
                        e
                    },
            ),
    {
        let k0 = old.slot_key(s0);
        assert forall|j: int| 0 <= j < old.log_len && old.live(j) implies #[trigger] new.value_at(j)
            == if old.log@[j] == k0 {
            v
        } else {
            old.value_at(j)
        } by {
            let t = old.slot_of_pos(j);
            assert(old.records(t, j));
            assert(new.records(t, j));
            new.lemma_records_unique(t, new.slot_of_pos(j), j);
            assert(old.slots@[t] == old.slots@[t]);
            assert(old.slots@[s0] == old.slots@[s0]);
        }
        ArrayMap::lemma_entries_revalue(old, new, 0, k0, v);
    }

    proof fn lemma_vacate_entries(old: Self, new: Self, s0: int)
        requires
            old.wf(),
            new.wf(),
            0 <= s0 < old.cap,
            old.full(s0),
            new.slots@ == old.slots@.update(s0, Slot::Deleted),
            new.log@ == old.log@,
            new.log_len == old.log_len,
            new.live_flags() == old.live_flags().update(old.slot_pos(s0) as int, false),
        ensures
            new.entries() == old.entries().filter(|e: (u32, V)| e.0 != old.slot_key(s0)),
    {
        let k0 = old.slot_key(s0);
        let q0 = old.slot_pos(s0) as int;
        assert(old.slots@[s0] == old.slots@[s0]);
        assert forall|j: int| 0 <= j < old.log_len implies #[trigger] new.live(j) == (old.live(j)
            && j != q0) by {
            assert(new.live_flags()[j] == old.live_flags().update(q0, false)[j]);
        }
        assert forall|j: int| 0 <= j < old.log_len && new.live(j) implies #[trigger] new.value_at(j)
            == old.value_at(j) by {
            let t = new.slot_of_pos(j);
            assert(new.records(t, j));
            assert(old.records(t, j));
            old.lemma_records_unique(t, old.slot_of_pos(j), j);
        }
        assert forall|j: int| 0 <= j < old.log_len && #[trigger] old.live(j) && j != q0 implies old.log@[j]
            != k0 by {
            let t = old.slot_of_pos(j);
            assert(old.records(t, j));
            assert(old.slots@[t] == old.slots@[t]);
        }
        ArrayMap::lemma_entries_drop(old, new, 0, q0, k0);
    }

    // ----------------------------------------------------------- operations

    /// An empty map of `width * height` slots under the given addressing.
    pub fn new(width: usize, height: usize, addressing: Addressing) -> (r: Self)
        requires
            0 < width * height <= usize::MAX,
            addressing is Direct ==> width * height <= u32::MAX,
        ensures
            r.wf(),
            r.capacity_spec() == width * height,
            r.addressing_spec() == addressing,
            r.len_spec() == 0,
            r.log_length() == 0,
            r@ == Map::<u32, V>::empty(),
            r.entries() == Seq::<(u32, V)>::empty(),
    {
        let cap = width * height;
        let mut slots: Vec<Slot<V>> = Vec::new();
        let mut log: Vec<u32> = Vec::new();
        let mut i: usize = 0;
        while i < cap
            invariant
                i <= cap,
                slots@.len() == i,
                log@.len() == i,
                forall|j: int| 0 <= j < i ==> slots@[j] is Empty,
            decreases cap - i,
        {
            slots.push(Slot::Empty);
            log.push(0);
            i = i + 1;
        }
        let r = ArrayMap { addressing, cap, count: 0, log, log_len: 0, slots };
        proof {
            lemma_count_none_set(r.full_flags());
            assert(r.live_flags() =~= Seq::<bool>::empty());
            assert(r@ =~= Map::<u32, V>::empty());
        }
        r
    }

    /// Total number of slots, width times height.
    pub fn capacity(&self) -> (r: usize)
        ensures
            r == self.capacity_spec(),
    {
        self.cap
    }

    /// Number of live entries.
    pub fn len(&self) -> (r: usize)
        requires
            self.wf(),
        ensures
            r == self.len_spec(),
            r == self@.len(),
            r <= self.capacity_spec(),
    {
        proof {
            self.lemma_len_within_capacity();
            self.lemma_entries_are_contents();
        }
        self.count
    }

    /// Slot holding the live entry of `k`, if any.
    fn find_slot(&self, k: u32) -> (r: Option<usize>)
        requires
            self.wf(),
        ensures
            match r {
                Some(s) => self.holds(s as int, k),
                None => forall|s: int| !self.holds(s, k),
            },
    {
        match self.addressing {
            Addressing::Direct => {
                if (k as usize) < self.cap {
                    match &self.slots[k as usize] {
                        Slot::Full { .. } => {
                            proof {
                                assert(self.slots@[k as int] == self.slots@[k as int]);
                            }
                            Some(k as usize)
                        },
                        _ => {
                            proof {
                                assert forall|s: int| !self.holds(s, k) by {
                                    if self.holds(s, k) {
                                        assert(self.slots@[s] == self.slots@[s]);
                                    }
                                }
                            }
                            None
                        },
                    }
                } else {
                    proof {
                        assert forall|s: int| !self.holds(s, k) by {
                            if self.holds(s, k) {
                                assert(self.slots@[s] == self.slots@[s]);
                            }
                        }
                    }
                    None
                }
            },
            Addressing::Open => {
                let cap = self.cap;
                let h: usize = (k as usize) % cap;
                let mut i: usize = h;
                let mut d: usize = 0;
                while d < cap
                    invariant
                        self.wf(),
                        self.addressing is Open,
                        cap == self.cap,
                        h == self.home(k),
                        d <= cap,
                        d < cap ==> i == probe(h as int, d as int, cap as int),
                        forall|e: int|
                            0 <= e < d ==> !self.holds(probe(h as int, e, cap as int), k)
                                && !(#[trigger] self.slots@[probe(h as int, e, cap as int)] is Empty),
                    decreases cap - d,
                {
                    match &self.slots[i] {
                        Slot::Empty => {
                            proof {
                                assert forall|s: int| !self.holds(s, k) by {
                                    if self.holds(s, k) {
                                        assert(self.slots@[s] == self.slots@[s]);
                                        let ds = dist(h as int, s, cap as int);
                                        assert(probe(h as int, ds, cap as int) == s);
                                        if ds > d {
                                            assert(self.addressing is Open);
                                            assert(self.slot_key(s) == k);
                                            assert(self.placed(s));
                                            assert(dist(self.home(k), s, cap as int) == ds);
                                            assert(!(self.slots@[probe(
                                                self.home(k),
                                                d as int,
                                                cap as int,
                                            )] is Empty));
                                        } else if ds == d {
                                            assert(self.slots@[i as int] is Empty);
                                        }
                                    }
                                }
                            }
                            return None;
                        },
                        Slot::Full { key, .. } => {
                            if *key == k {
                                return Some(i);
                            }
                        },
                        Slot::Deleted => {},
                    }
                    d = d + 1;
                    if i + 1 == cap {
                        i = 0;
                    } else {
                        i = i + 1;
                    }
                }
                proof {
                    assert forall|s: int| !self.holds(s, k) by {
                        if self.holds(s, k) {
                            let ds = dist(h as int, s, cap as int);
                            assert(probe(h as int, ds, cap as int) == s);
                        }
                    }
                }
                None
            },
        }
    }
}

impl<V: Copy> ArrayMap<V> {
    /// Slot of the live entry recorded at log position `p`, if it is live.
    fn resolve_pos(&self, p: usize) -> (r: Option<usize>)
        requires
            self.wf(),
            p < self.log_len,
        ensures
            match r {
                Some(s) => self.records(s as int, p as int) && s as int == self.slot_of_pos(p as int),
                None => !self.live(p as int),
            },
    {
        let k = self.log[p];
        match self.find_slot(k) {
            Some(s) => {
                let hit = match &self.slots[s] {
                    Slot::Full { pos, .. } => *pos == p,
                    _ => false,
                };
                proof {
                    assert(self.slots@[s as int] == self.slots@[s as int]);
                    if self.live(p as int) {
                        let t = choose|t: int| self.records(t, p as int);
                        assert(self.slots@[t] == self.slots@[t]);
                        assert(self.holds(t, k));
                    }
                }
                if hit {
                    proof {
                        self.lemma_records_unique(s as int, self.slot_of_pos(p as int), p as int);
                    }
                    Some(s)
                } else {
                    None
                }
            },
            None => {
                proof {
                    if self.live(p as int) {
                        let t = choose|t: int| self.records(t, p as int);
                        assert(self.slots@[t] == self.slots@[t]);
                        assert(self.holds(t, k));
                    }
                }
                None
            },
        }
    }

    /// Reclaims the stale log position `p`: the last log entry moves into it
    /// and the log shrinks by one.
    fn reclaim(&mut self, p: usize)
        requires
            old(self).wf(),
            p < old(self).log_len,
            !old(self).live(p as int),
        ensures
            final(self).wf(),
            final(self).same_shape(*old(self)),
            final(self)@ == old(self)@,
            final(self).count == old(self).count,
            final(self).log_len == old(self).log_len - 1,
            final(self).log@ == old(self).log@.update(p as int, old(self).log@[old(self).log_len - 1]),
            forall|j: int|
                0 <= j < final(self).log_len ==> #[trigger] final(self).live(j) == if j == p {
                    old(self).live(old(self).log_len - 1)
                } else {
                    old(self).live(j)
                },
            forall|j: int|
                0 <= j < final(self).log_len && final(self).live(j) ==> #[trigger] final(self).slot_value(final(self).slot_of_pos(j)) == if j == p {
                    old(self).slot_value(old(self).slot_of_pos(old(self).log_len - 1))
                } else {
                    old(self).slot_value(old(self).slot_of_pos(j))
                },
    {
        let ghost pre = *self;
        let q = self.log_len - 1;
        let kq = self.log[q];
        match self.resolve_pos(q) {
            Some(sq) => {
                let slot = self.slots[sq];
                match slot {
                    Slot::Full { key, value, .. } => {
                        self.slots.set(sq, Slot::Full { key, value, pos: p });
                    },
                    _ => {},
                }
            },
            None => {},
        }
        self.log.set(p, kq);
        self.log_len = q;
        proof {
            ArrayMap::lemma_reclaim(pre, *self, p as int);
        }
    }

    /// Reclaims every stale log position, leaving a log of live entries only.
    fn compact(&mut self)
        requires
            old(self).wf(),
        ensures
            final(self).wf(),
            final(self).same_shape(*old(self)),
            final(self)@ == old(self)@,
            final(self).count == old(self).count,
            final(self).log_len == final(self).count,
    {
        let ghost pre = *self;
        let mut p: usize = 0;
        while p < self.log_len
            invariant
                self.wf(),
                self.same_shape(pre),
                self@ == pre@,
                self.count == pre.count,
                p <= self.log_len,
                forall|j: int| 0 <= j < p ==> #[trigger] self.live(j),
            decreases self.log_len - p,
        {
            if self.resolve_pos(p).is_some() {
                p = p + 1;
            } else {
                self.reclaim(p);
            }
        }
        proof {
            assert forall|j: int| 0 <= j < self.live_flags().len() implies self.live_flags()[j] by {
                assert(self.live(j));
            }
            lemma_count_all_set(self.live_flags());
        }
    }

    /// First slot that is not live on the probing path of `k`.
    fn free_slot(&self, k: u32) -> (r: usize)
        requires
            self.wf(),
            self.addressing is Open,
            self.count < self.cap,
        ensures
            r < self.cap,
            !self.full(r as int),
            forall|d: int|
                0 <= d < dist(self.home(k), r as int, self.cap as int) ==> self.full(
                    probe(self.home(k), d, self.cap as int),
                ),
    {
        let cap = self.cap;
        let h: usize = (k as usize) % cap;
        let ghost free = lemma_count_lt_has_unset(self.full_flags());
        let mut i: usize = h;
        let mut d: usize = 0;
        loop
            invariant
                self.wf(),
                cap == self.cap,
                h == self.home(k),
                0 <= free < cap,
                !self.full(free),
                d < cap,
                i == probe(h as int, d as int, cap as int),
                forall|e: int|
                    0 <= e < d ==> #[trigger] self.full(probe(h as int, e, cap as int)),
            decreases cap - d,
        {
            match &self.slots[i] {
                Slot::Full { .. } => {},
                _ => {
                    return i;
                },
            }
            proof {
                if d + 1 == cap {
                    let df = dist(h as int, free, cap as int);
                    assert(probe(h as int, df, cap as int) == free);
                    if df < d {
                        assert(self.full(probe(h as int, df, cap as int)));
                    }
                }
            }
            d = d + 1;
            if i + 1 == cap {
                i = 0;
            } else {
                i = i + 1;
            }
        }
    }

    /// Stores `v` under `k`. Fails with `CapacityExceeded` when every slot is
    /// live, and under direct indexing with `KeyOutOfRange` when `k` is not
    /// below the capacity; the map is then unchanged. A key that is already
    /// live keeps its slot and log position and takes the new value; a new key
    /// takes a free slot and is recorded at the end of the log, after stale
    /// log positions are reclaimed if the log is full.
    pub fn insert(&mut self, k: u32, v: V) -> (r: Result<(), MapError>)
        requires
            old(self).wf(),
        ensures
            final(self).wf(),
            final(self).same_shape(*old(self)),
            r == old(self).insert_outcome(k),
            r is Ok ==> final(self)@ == old(self)@.insert(k, v),
            r is Ok ==> final(self).len_spec() == old(self).len_spec() + if old(self)@.contains_key(k) {
                0int
            } else {
                1int
            },
            r is Err ==> *final(self) == *old(self),
            r is Ok && old(self)@.contains_key(k) ==> final(self).entries() == old(self).entries().map_values(
                |e: (u32, V)|
                    if e.0 == k {
                        (k, v)
                    } else {
                        e
                    },
            ),
            r is Ok && !old(self)@.contains_key(k) && old(self).log_length() < old(self).capacity_spec()
                ==> final(self).entries() == old(self).entries().push((k, v)),
            r is Ok && old(self)@.contains_key(k) ==> final(self).log_length() == old(self).log_length(),
            r is Ok && !old(self)@.contains_key(k) ==> final(self).log_length() == 1
                + if old(self).log_length() < old(self).capacity_spec() {
                old(self).log_length()
            } else {
                old(self).len_spec()
            },
    {
        if self.count == self.cap {
            return Err(MapError::CapacityExceeded);
        }
        match self.addressing {
            Addressing::Direct => {
                if (k as usize) >= self.cap {
                    return Err(MapError::KeyOutOfRange);
                }
            },
            Addressing::Open => {},
        }
        match self.find_slot(k) {
            Some(s) => {
                let ghost pre = *self;
                let slot = self.slots[s];
                match slot {
                    Slot::Full { key, pos, .. } => {
                        self.slots.set(s, Slot::Full { key, value: v, pos });
                    },
                    _ => {},
                }
                proof {
                    assert(pre.slots@[s as int] == pre.slots@[s as int]);
                    ArrayMap::lemma_set_value(pre, *self, s as int, v);
                    ArrayMap::lemma_set_value_entries(pre, *self, s as int, v);
                    pre.lemma_holds_view(s as int, k);
                }
                Ok(())
            },
            None => {
                proof {
                    lemma_count_le_len(self.live_flags());
                }
                if self.log_len == self.cap {
                    self.compact();
                }
                let ghost pre = *self;
                let s = match self.addressing {
                    Addressing::Direct => k as usize,
                    Addressing::Open => self.free_slot(k),
                };
                proof {
                    if self.addressing is Direct && self.full(s as int) {
                        assert(self.slots@[s as int] == self.slots@[s as int]);
                        assert(self.holds(s as int, k));
                    }
                    assert(!self.contents().contains_key(k));
                }
                let p = self.log_len;
                self.slots.set(s, Slot::Full { key: k, value: v, pos: p });
                self.log.set(p, k);
                self.log_len = p + 1;
                self.count = self.count + 1;
                proof {
                    ArrayMap::lemma_place(pre, *self, s as int, k, v);
                    ArrayMap::lemma_place_entries(pre, *self, s as int, k, v);
                }
                Ok(())
            },
        }
    }

    /// The value stored under `k`. Under direct indexing a key not below the
    /// capacity is refused with `KeyOutOfRange`; otherwise the result is
    /// `None` when `k` has no live entry.
    pub fn get(&self, k: u32) -> (r: Result<Option<&V>, MapError>)
        requires
            self.wf(),
        ensures
            r == if !self.key_fits(k) {
                Err(MapError::KeyOutOfRange)
            } else if self@.contains_key(k) {
                Ok(Some(&self@[k]))
            } else {
                Ok(None)
            },
    {
        match self.addressing {
            Addressing::Direct => {
                if (k as usize) >= self.cap {
                    return Err(MapError::KeyOutOfRange);
                }
            },
            Addressing::Open => {},
        }
        match self.find_slot(k) {
            Some(s) => {
                proof {
                    self.lemma_holds_view(s as int, k);
                }
                match &self.slots[s] {
                    Slot::Full { value, .. } => Ok(Some(value)),
                    _ => Ok(None),
                }
            },
            None => Ok(None),
        }
    }

    /// Removes every entry: all slots become empty and the log is emptied.
    pub fn clear(&mut self)
        requires
            old(self).wf(),
        ensures
            final(self).wf(),
            final(self).same_shape(*old(self)),
            final(self)@ == Map::<u32, V>::empty(),
            final(self).len_spec() == 0,
            final(self).log_length() == 0,
            final(self).entries() == Seq::<(u32, V)>::empty(),
    {
        let cap = self.cap;
        let mut i: usize = 0;
        while i < cap
            invariant
                old(self).wf(),
                cap == self.cap,
                self.same_shape(*old(self)),
                self.slots@.len() == cap,
                self.log@.len() == cap,
                i <= cap,
                forall|j: int| 0 <= j < i ==> self.slots@[j] is Empty,
            decreases cap - i,
        {
            self.slots.set(i, Slot::Empty);
            i = i + 1;
        }
        self.count = 0;
        self.log_len = 0;
        proof {
            lemma_count_none_set(self.full_flags());
            assert(self.live_flags() =~= Seq::<bool>::empty());
            assert(self@ =~= Map::<u32, V>::empty());
        }
    }

    /// Removes the entry of `k`, then inserts `v` under `k`, and returns the
    /// value that was removed. When the insertion fails the map is left as
    /// the removal made it; for a live `k` the insertion never fails, so a
    /// failure leaves the map unchanged.
    pub fn replace(&mut self, k: u32, v: V) -> (r: Result<Option<V>, MapError>)
        requires
            old(self).wf(),
        ensures
            final(self).wf(),
            final(self).same_shape(*old(self)),
            r is Err <==> !old(self)@.contains_key(k) && old(self).insert_outcome(k) is Err,
            r is Err ==> r == Err::<Option<V>, MapError>(old(self).insert_outcome(k)->Err_0) && final(self)@ == old(self)@,
            r is Ok ==> r == Ok::<Option<V>, MapError>(old(self)@.get(k)) && final(self)@ == old(self)@.insert(k, v),
            final(self).len_spec() == old(self).len_spec() + if r is Ok && !old(self)@.contains_key(k) {
                1int
            } else {
                0int
            },
    {
        let prev = self.remove(k);
        match self.insert(k, v) {
            Ok(()) => {
                proof {
                    assert(old(self)@.remove(k).insert(k, v) =~= old(self)@.insert(k, v));
                }
                Ok(prev)
            },
            Err(e) => {
                proof {
                    if old(self)@.contains_key(k) {
                        lemma_count_le_len(old(self).full_flags());
                        assert(old(self).contents().contains_key(k));
                    }
                }
                Err(e)
            },
        }
    }

    /// No entry is live.
    pub fn is_empty(&self) -> (r: bool)
        requires
            self.wf(),
        ensures
            r == (self.len_spec() == 0),
    {
        self.count == 0
    }

    /// Every slot holds a live entry.
    pub fn is_full(&self) -> (r: bool)
        requires
            self.wf(),
        ensures
            r == (self.len_spec() == self.capacity_spec()),
    {
        self.count == self.cap
    }

    /// The addressing policy fixed at construction.
    pub fn addressing(&self) -> (r: Addressing)
        ensures
            r == self.addressing_spec(),
    {
        self.addressing
    }

    /// From log position `p` on, finds the first live position and returns
    /// the position after it with its entry, or a position past the log.
    pub(crate) fn seek_live(&self, p: usize) -> (r: (usize, Option<(u32, &V)>))
        requires
            self.wf(),
        ensures
            self.entries_from(p as nat).len() == 0 ==> r.1 is None && self.entries_from(
                r.0 as nat,
            ).len() == 0,
            self.entries_from(p as nat).len() > 0 ==> r.1 == Some(
                (self.entries_from(p as nat)[0].0, &self.entries_from(p as nat)[0].1),
            ) && self.entries_from(r.0 as nat) == self.entries_from(p as nat).drop_first(),
    {
        let mut j: usize = p;
        while j < self.log_len
            invariant
                self.wf(),
                self.entries_from(j as nat) == self.entries_from(p as nat),
            decreases self.log_len - j,
        {
            match self.resolve_pos(j) {
                Some(s) => {
                    let ghost e = self.entries_from(j as nat);
                    proof {
                        assert(e =~= seq![(self.log@[j as int], self.slot_value(s as int))]
                            + self.entries_from(j as nat + 1));
                    }
                    match &self.slots[s] {
                        Slot::Full { value, .. } => {
                            return (j + 1, Some((self.log[j], value)));
                        },
                        _ => {
                            return (j + 1, None);
                        },
                    }
                },
                None => {
                    j = j + 1;
                },
            }
        }
        proof {
            self.lemma_keys_from_end(j as nat);
        }
        (j, None)
    }

    /// From log position `p` on, reclaims stale positions until a live one
    /// comes up, and returns the position after it with its entry, or a
    /// position past the log when none is left.
    pub(crate) fn seek_live_mut(&mut self, p: usize) -> (r: (usize, Option<(u32, V)>))
        requires
            old(self).wf(),
        ensures
            final(self).wf(),
            final(self).same_shape(*old(self)),
            final(self)@ == old(self)@,
            final(self).len_spec() == old(self).len_spec(),
            old(self).live_below(p as nat) ==> final(self).live_below(r.0 as nat),
            match r.1 {
                Some((k, v)) => {
                    &&& old(self).keys_from(p as nat).contains(k)
                    &&& old(self)@.contains_key(k)
                    &&& old(self)@[k] == v
                    &&& final(self).keys_from(r.0 as nat) == old(self).keys_from(p as nat).remove(k)
                    &&& r.0 >= 1
                    &&& final(self).live_key(r.0 - 1) == Some(k)
                    &&& p < r.0 <= final(self).log_length() <= old(self).log_length()
                    &&& final(self).log_length() - r.0 < old(self).log_length() - p
                },
                None => {
                    &&& old(self).keys_from(p as nat).is_empty()
                    &&& final(self).keys_from(r.0 as nat).is_empty()
                    &&& r.0 >= final(self).log_length()
                },
            },
    {
        let ghost pre = *self;
        let mut j: usize = p;
        while j < self.log_len
            invariant
                self.wf(),
                pre == *old(self),
                self.same_shape(pre),
                self@ == pre@,
                self.count == pre.count,
                self.log_len <= pre.log_len,
                j == p,
                self.keys_from(j as nat) == pre.keys_from(p as nat),
                pre.live_below(p as nat) ==> self.live_below(j as nat),
            decreases self.log_len,
        {
            match self.resolve_pos(j) {
                Some(s) => {
                    let k = self.log[j];
                    let v = match &self.slots[s] {
                        Slot::Full { value, .. } => *value,
                        _ => {
                            proof {
                                assert(false);
                            }
                            return (j + 1, None);
                        },
                    };
                    proof {
                        self.lemma_keys_from_step(j as nat);
                        assert(self.slots@[s as int] == self.slots@[s as int]);
                        self.lemma_holds_view(s as int, k);
                        assert(self.keys_from(j as nat + 1) =~= self.keys_from(j as nat).remove(k));
                    }
                    return (j + 1, Some((k, v)));
                },
                None => {
                    let ghost before = *self;
                    proof {
                        before.lemma_keys_from_step(j as nat);
                    }
                    self.reclaim(j);
                    proof {
                        if j < self.log_len {
                            self.lemma_keys_from_step(j as nat);
                            assert forall|x: u32| self.keys_from(j as nat).contains(x)
                                == before.keys_from(j as nat).contains(x) by {
                                if self.keys_from(j as nat).contains(x) {
                                    let y = choose|y: int|
                                        j <= y < self.log_len && #[trigger] self.live(y)
                                            && self.log@[y] == x;
                                    if y == j {
                                        assert(before.live(before.log_len - 1));
                                    } else {
                                        assert(before.live(y));
                                    }
                                }
                                if before.keys_from(j as nat).contains(x) {
                                    let y = choose|y: int|
                                        j <= y < before.log_len && #[trigger] before.live(y)
                                            && before.log@[y] == x;
                                    if y == before.log_len - 1 {
                                        assert(self.live(j as int));
                                    } else {
                                        assert(self.live(y));
                                    }
                                }
                            }
                            assert(self.keys_from(j as nat) =~= before.keys_from(j as nat));
                        } else {
                            self.lemma_keys_from_end(j as nat);
                        }
                    }
                },
            }
        }
        proof {
            self.lemma_keys_from_end(j as nat);
        }
        (j, None)
    }

    /// Gives the live entry recorded at log position `p` the value `v`;
    /// reports whether there was one.
    pub(crate) fn set_live_value(&mut self, p: usize, v: V) -> (r: bool)
        requires
            old(self).wf(),
        ensures
            final(self).wf(),
            final(self).same_shape(*old(self)),
            final(self).len_spec() == old(self).len_spec(),
            final(self).same_log(*old(self)),
            r == old(self).live_key(p as int) is Some,
            match old(self).live_key(p as int) {
                Some(k) => final(self)@ == old(self)@.insert(k, v),
                None => final(self)@ == old(self)@,
            },
    {
        if p >= self.log_len {
            return false;
        }
        match self.resolve_pos(p) {
            Some(s) => {
                let ghost pre = *self;
                let slot = self.slots[s];
                match slot {
                    Slot::Full { key, pos, .. } => {
                        self.slots.set(s, Slot::Full { key, value: v, pos });
                    },
                    _ => {},
                }
                proof {
                    assert(pre.slots@[s as int] == pre.slots@[s as int]);
                    ArrayMap::lemma_set_value(pre, *self, s as int, v);
                }
                true
            },
            None => false,
        }
    }

    /// The value store, one cell per slot, for structural serialization.
    pub fn slots(&self) -> (r: &Vec<Slot<V>>)
        requires
            self.wf(),
        ensures
            r@.len() == self.capacity_spec(),
            forall|s: int|
                0 <= s < r@.len() && #[trigger] r@[s] is Full ==> self@.contains_key(r@[s]->key)
                    && self@[r@[s]->key] == r@[s]->value,
            forall|k: u32|
                #[trigger] self@.contains_key(k) ==> exists|s: int|
                    0 <= s < r@.len() && r@[s] is Full && r@[s]->key == k,
    {
        proof {
            assert forall|s: int|
                0 <= s < self.slots@.len() && #[trigger] self.slots@[s] is Full implies self@.contains_key(
                self.slots@[s]->key,
            ) && self@[self.slots@[s]->key] == self.slots@[s]->value by {
                self.lemma_holds_view(s, self.slots@[s]->key);
            }
        }
        &self.slots
    }

    /// Keys recorded in the log positions in use, stale ones included, in log
    /// order; a live position holds the key of its entry.
    pub fn log_keys(&self) -> (r: Vec<u32>)
        requires
            self.wf(),
        ensures
            r@.len() == self.log_length(),
            forall|j: int|
                0 <= j < r@.len() && #[trigger] self.live_key(j) is Some ==> self@.contains_key(r@[j])
                    && self.live_key(j) == Some(r@[j]),
    {
        let mut out: Vec<u32> = Vec::new();
        let mut j: usize = 0;
        while j < self.log_len
            invariant
                self.wf(),
                j <= self.log_len,
                out@ == self.log@.subrange(0, j as int),
            decreases self.log_len - j,
        {
            out.push(self.log[j]);
            j = j + 1;
            proof {
                assert(out@ =~= self.log@.subrange(0, j as int));
            }
        }
        proof {
            assert forall|j: int|
                0 <= j < out@.len() && #[trigger] self.live_key(j) is Some implies self@.contains_key(
                out@[j],
            ) && self.live_key(j) == Some(out@[j]) by {
                let t = self.slot_of_pos(j);
                assert(self.records(t, j));
                assert(self.slots@[t] == self.slots@[t]);
                self.lemma_holds_view(t, self.log@[j]);
            }
        }
        out
    }

    /// Removes the entry of `k` and returns its value, or `None` if `k` has
    /// no live entry (an out-of-range key under direct indexing has none).
    /// The log is left as it is: the entry's log position turns stale.
    pub fn remove(&mut self, k: u32) -> (r: Option<V>)
        requires
            old(self).wf(),
        ensures
            final(self).wf(),
            final(self).same_shape(*old(self)),
            r == old(self)@.get(k),
            final(self)@ == old(self)@.remove(k),
            final(self).len_spec() == old(self).len_spec() - (if r is Some { 1int } else { 0int }),
            final(self).log_length() == old(self).log_length(),
            final(self).entries() == old(self).entries().filter(|e: (u32, V)| e.0 != k),
    {
        proof {
            if !self.contents().contains_key(k) {
                self.lemma_entries_are_contents();
                lemma_filter_keeps_all(self.entries(), |e: (u32, V)| e.0 != k);
            }
        }
        if self.count == 0 {
            proof {
                assert forall|s: int| !self.holds(s, k) by {
                    if self.holds(s, k) {
                        lemma_count_set_positive(self.full_flags(), s);
                    }
                }
                assert(self@.remove(k) =~= self@);
            }
            return None;
        }
        match self.find_slot(k) {
            None => {
                proof {
                    assert(self@.remove(k) =~= self@);
                }
                None
            },
            Some(s) => {
                let ghost pre = *self;
                let value = match &self.slots[s] {
                    Slot::Full { value, .. } => *value,
                    _ => {
                        proof {
                            assert(false);
                        }
                        return None;
                    },
                };
                proof {
                    pre.lemma_holds_view(s as int, k);
                    lemma_count_le_len(pre.full_flags());
                }
                self.slots.set(s, Slot::Deleted);
                self.count = self.count - 1;
                proof {
                    ArrayMap::lemma_vacate(pre, *self, s as int);
                    ArrayMap::lemma_vacate_entries(pre, *self, s as int);
                }
                Some(value)
            },
        }
    }
}

impl<V: Copy> View for ArrayMap<V> {
    type V = Map<u32, V>;

    closed spec fn view(&self) -> Map<u32, V> {
        self.contents()
    }
}

} // verus!
