//! Traversals of a map along its log: a read-only cursor, and a mutable one
//! that reclaims stale log positions as it meets them.
use vstd::prelude::*;

use crate::map::ArrayMap;

verus! {

/// Read-only traversal: yields each live entry once, in log order.
///
/// The cursor holds only its log position; each step reads the map it is
/// given, which must not change between steps.
pub struct Iter {
    pos: usize,
}

/// Mutable traversal: yields each live key once with its value, and lets the
/// caller overwrite the value last yielded. A stale log position met on the way
/// is reclaimed in place by the last log entry, which is examined next; the map
/// is therefore reordered but never loses an entry.
pub struct IterMut {
    pos: usize,
}

impl Iter {
    /// Entries still to be yielded from `m`.
    pub closed spec fn remaining<V: Copy>(self, m: ArrayMap<V>) -> Seq<(u32, V)> {
        m.entries_from(self.pos as nat)
    }

    /// The next live entry, or `None` once the log is exhausted.
    pub fn next<'a, V: Copy>(&mut self, m: &'a ArrayMap<V>) -> (r: Option<(u32, &'a V)>)
        requires
            m.wf(),
        ensures
            old(self).remaining(*m).len() == 0 ==> r is None && final(self).remaining(*m).len()
                == 0,
            old(self).remaining(*m).len() > 0 ==> r == Some(
                (old(self).remaining(*m)[0].0, &old(self).remaining(*m)[0].1),
            ) && final(self).remaining(*m) == old(self).remaining(*m).drop_first(),
    {
        let (p, e) = m.seek_live(self.pos);
        self.pos = p;
        e
    }
}

impl IterMut {
    /// Keys still to be yielded from `m`.
    pub closed spec fn pending<V: Copy>(self, m: ArrayMap<V>) -> Set<u32> {
        m.keys_from(self.pos as nat)
    }

    /// Key of the entry last yielded, while it is still live in `m`.
    pub closed spec fn current<V: Copy>(self, m: ArrayMap<V>) -> Option<u32> {
        if self.pos == 0 {
            None
        } else {
            m.live_key(self.pos - 1)
        }
    }

    /// Every log position that the cursor has passed is live in `m`.
    pub closed spec fn visited_live<V: Copy>(self, m: ArrayMap<V>) -> bool {
        m.live_below(self.pos as nat)
    }

    /// Log positions of `m` that the cursor has still to pass: each step that
    /// yields an entry lowers it.
    pub closed spec fn steps_left<V: Copy>(self, m: ArrayMap<V>) -> nat {
        if self.pos <= m.log_length() {
            (m.log_length() - self.pos) as nat
        } else {
            0
        }
    }

    /// The cursor has passed the end of the log of `m`.
    pub closed spec fn exhausted<V: Copy>(self, m: ArrayMap<V>) -> bool {
        self.pos >= m.log_length()
    }

    /// A mutable cursor run until it reports `None`, from the start of the log
    /// and with the map changed by nothing else meanwhile, leaves no stale log
    /// position: the log has one position per live entry, and a read-only
    /// traversal then yields an entry at every position it passes.
    pub proof fn lemma_drained_log_is_compact<V: Copy>(self, m: ArrayMap<V>)
        requires
            m.wf(),
            self.visited_live(m),
            self.exhausted(m),
        ensures
            m.is_compact(),
            m.log_length() == m.len_spec(),
            m.entries().len() == m.len_spec(),
    {
        m.lemma_compact_log(self.pos as nat);
    }

    /// The next live key and its value, or `None` once the log is exhausted.
    /// Stale positions met on the way are reclaimed; the map's entries stay
    /// as they were.
    pub fn next<V: Copy>(&mut self, m: &mut ArrayMap<V>) -> (r: Option<(u32, V)>)
        requires
            old(m).wf(),
        ensures
            final(m).wf(),
            final(m).same_shape(*old(m)),
            final(m)@ == old(m)@,
            final(m).len_spec() == old(m).len_spec(),
            old(self).visited_live(*old(m)) ==> final(self).visited_live(*final(m)),
            match r {
                Some((k, v)) => {
                    &&& old(self).pending(*old(m)).contains(k)
                    &&& old(m)@.contains_key(k)
                    &&& old(m)@[k] == v
                    &&& final(self).pending(*final(m)) == old(self).pending(*old(m)).remove(k)
                    &&& final(self).current(*final(m)) == Some(k)
                    &&& final(self).steps_left(*final(m)) < old(self).steps_left(*old(m))
                },
                None => {
                    &&& old(self).pending(*old(m)).is_empty()
                    &&& final(self).pending(*final(m)).is_empty()
                    &&& final(self).exhausted(*final(m))
                },
            },
    {
        let (p, e) = m.seek_live_mut(self.pos);
        self.pos = p;
        e
    }

    /// Overwrites the value of the entry last yielded, if it is still live;
    /// reports whether it was.
    pub fn set_current<V: Copy>(&self, m: &mut ArrayMap<V>, v: V) -> (r: bool)
        requires
            old(m).wf(),
        ensures
            final(m).wf(),
            final(m).same_shape(*old(m)),
            final(m).len_spec() == old(m).len_spec(),
            r == self.current(*old(m)) is Some,
            match self.current(*old(m)) {
                Some(k) => final(m)@ == old(m)@.insert(k, v),
                None => final(m)@ == old(m)@,
            },
            self.pending(*final(m)) == self.pending(*old(m)),
            self.current(*final(m)) == self.current(*old(m)),
            self.visited_live(*final(m)) == self.visited_live(*old(m)),
            self.steps_left(*final(m)) == self.steps_left(*old(m)),
            self.exhausted(*final(m)) == self.exhausted(*old(m)),
    {
        if self.pos == 0 {
            return false;
        }
        let r = m.set_live_value(self.pos - 1, v);
        proof {
            final(m).lemma_same_log(*old(m));
        }
        r
    }
}

impl<V: Copy> ArrayMap<V> {
    /// A read-only cursor at the start of the log.
    pub fn iter(&self) -> (r: Iter)
        ensures
            r.remaining(*self) == self.entries(),
    {
        Iter { pos: 0 }
    }

    /// A mutable cursor at the start of the log: every key is pending.
    pub fn iter_mut(&mut self) -> (r: IterMut)
        requires
            old(self).wf(),
        ensures
            *final(self) == *old(self),
            r.pending(*final(self)) == final(self)@.dom(),
            r.current(*final(self)) is None,
            r.visited_live(*final(self)),
    {
        proof {
            self.lemma_keys_from_start();
        }
        IterMut { pos: 0 }
    }
}

} // verus!
