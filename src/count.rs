//! Counting the set flags of a finite sequence.
use vstd::prelude::*;

verus! {

/// One for a set flag, zero otherwise.
pub open spec fn flag(b: bool) -> nat {
    if b {
        1
    } else {
        0
    }
}

/// Number of `true` entries of a sequence of flags.
pub open spec fn count_true(s: Seq<bool>) -> nat
    decreases s.len(),
{
    if s.len() == 0 {
        0
    } else {
        flag(s[0]) + count_true(s.subrange(1, s.len() as int))
    }
}

/// The count never exceeds the length.
pub proof fn lemma_count_le_len(s: Seq<bool>)
    ensures
        count_true(s) <= s.len(),
    decreases s.len(),
{
    if s.len() > 0 {
        lemma_count_le_len(s.subrange(1, s.len() as int));
    }
}

/// Appending a flag adds it to the count.
pub proof fn lemma_count_push(s: Seq<bool>, b: bool)
    ensures
        count_true(s.push(b)) == count_true(s) + flag(b),
    decreases s.len(),
{
    if s.len() == 0 {
        assert(s.push(b).subrange(1, 1) =~= s);
        assert(count_true(s) == 0);
    } else {
        let t = s.subrange(1, s.len() as int);
        lemma_count_push(t, b);
        assert(s.push(b).subrange(1, s.len() + 1 as int) =~= t.push(b));
        assert(s.push(b)[0] == s[0]);
    }
}

/// Dropping the last flag removes it from the count.
pub proof fn lemma_count_drop_last(s: Seq<bool>)
    requires
        s.len() > 0,
    ensures
        count_true(s) == count_true(s.drop_last()) + flag(s.last()),
{
    lemma_count_push(s.drop_last(), s.last());
    assert(s.drop_last().push(s.last()) =~= s);
}

/// Changing one flag changes the count by the difference of the two flags.
pub proof fn lemma_count_update(s: Seq<bool>, i: int, b: bool)
    requires
        0 <= i < s.len(),
    ensures
        count_true(s.update(i, b)) + flag(s[i]) == count_true(s) + flag(b),
    decreases s.len(),
{
    let u = s.update(i, b);
    let t = s.subrange(1, s.len() as int);
    if i == 0 {
        assert(u.subrange(1, u.len() as int) =~= t);
    } else {
        lemma_count_update(t, i - 1, b);
        assert(u.subrange(1, u.len() as int) =~= t.update(i - 1, b));
    }
}

/// A count below the length leaves some flag unset.
pub proof fn lemma_count_lt_has_unset(s: Seq<bool>) -> (i: int)
    requires
        count_true(s) < s.len(),
    ensures
        0 <= i < s.len(),
        !s[i],
    decreases s.len(),
{
    if !s[0] {
        0
    } else {
        let t = s.subrange(1, s.len() as int);
        let j = lemma_count_lt_has_unset(t);
        j + 1
    }
}

/// A sequence with every flag set counts its length.
pub proof fn lemma_count_all_set(s: Seq<bool>)
    requires
        forall|i: int| 0 <= i < s.len() ==> s[i],
    ensures
        count_true(s) == s.len(),
{
    lemma_count_le_len(s);
    if count_true(s) < s.len() {
        let i = lemma_count_lt_has_unset(s);
    }
}

/// A set flag keeps the count above zero.
pub proof fn lemma_count_set_positive(s: Seq<bool>, i: int)
    requires
        0 <= i < s.len(),
        s[i],
    ensures
        count_true(s) > 0,
{
    lemma_count_update(s, i, false);
}

/// A sequence with every flag unset counts zero.
pub proof fn lemma_count_none_set(s: Seq<bool>)
    requires
        forall|i: int| 0 <= i < s.len() ==> !s[i],
    ensures
        count_true(s) == 0,
    decreases s.len(),
{
    if s.len() > 0 {
        let t = s.subrange(1, s.len() as int);
        assert forall|i: int| 0 <= i < t.len() implies !t[i] by {
            assert(t[i] == s[i + 1]);
        }
        lemma_count_none_set(t);
    }
}

} // verus!
