use vstd::prelude::*;

verus! {

/// Sum of a sequence of integers.
pub open spec fn seq_sum(s: Seq<int>) -> int
    decreases s.len(),
{
    if s.len() == 0 {
        0
    } else {
        seq_sum(s.drop_last()) + s.last()
    }
}

/// Number of `true` entries of a sequence.
pub open spec fn count_true(s: Seq<bool>) -> nat
    decreases s.len(),
{
    if s.len() == 0 {
        0
    } else {
        count_true(s.drop_last()) + if s.last() { 1nat } else { 0nat }
    }
}

pub proof fn lemma_seq_sum_update(s: Seq<int>, i: int, v: int)
    requires
        0 <= i < s.len(),
    ensures
        seq_sum(s.update(i, v)) == seq_sum(s) - s[i] + v,
    decreases s.len(),
{
    let t = s.update(i, v);
    if i == s.len() - 1 {
        assert(t.drop_last() =~= s.drop_last());
    } else {
        assert(t.drop_last() =~= s.drop_last().update(i, v));
        lemma_seq_sum_update(s.drop_last(), i, v);
    }
}

pub proof fn lemma_seq_sum_nonneg(s: Seq<int>)
    requires
        forall|k: int| 0 <= k < s.len() ==> s[k] >= 0,
    ensures
        seq_sum(s) >= 0,
        forall|k: int| 0 <= k < s.len() ==> s[k] <= seq_sum(s),
        seq_sum(s) == 0 ==> forall|k: int| 0 <= k < s.len() ==> s[k] == 0,
    decreases s.len(),
{
    if s.len() > 0 {
        lemma_seq_sum_nonneg(s.drop_last());
        assert forall|k: int| 0 <= k < s.len() - 1 implies s[k] == s.drop_last()[k] by {}
    }
}

pub proof fn lemma_seq_sum_zeros(s: Seq<int>)
    requires
        forall|k: int| 0 <= k < s.len() ==> s[k] == 0,
    ensures
        seq_sum(s) == 0,
    decreases s.len(),
{
    if s.len() > 0 {
        lemma_seq_sum_zeros(s.drop_last());
    }
}

pub proof fn lemma_count_true_bound(s: Seq<bool>)
    ensures
        count_true(s) <= s.len(),
    decreases s.len(),
{
    if s.len() > 0 {
        lemma_count_true_bound(s.drop_last());
    }
}

pub proof fn lemma_count_true_update(s: Seq<bool>, i: int, b: bool)
    requires
        0 <= i < s.len(),
    ensures
        count_true(s.update(i, b)) + (if s[i] { 1int } else { 0int }) == count_true(s) + (if b { 1int } else { 0int }),
    decreases s.len(),
{
    let t = s.update(i, b);
    if i == s.len() - 1 {
        assert(t.drop_last() =~= s.drop_last());
    } else {
        assert(t.drop_last() =~= s.drop_last().update(i, b));
        lemma_count_true_update(s.drop_last(), i, b);
    }
}

pub proof fn lemma_count_true_insert(s: Seq<bool>, i: int, b: bool)
    requires
        0 <= i <= s.len(),
    ensures
        count_true(s.insert(i, b)) == count_true(s) + (if b { 1int } else { 0int }),
    decreases s.len(),
{
    let t = s.insert(i, b);
    if i == s.len() {
        assert(t.drop_last() =~= s);
    } else {
        assert(t.drop_last() =~= s.drop_last().insert(i, b));
        lemma_count_true_insert(s.drop_last(), i, b);
    }
}

pub proof fn lemma_count_true_concat(a: Seq<bool>, b: Seq<bool>)
    ensures
        count_true(a + b) == count_true(a) + count_true(b),
    decreases b.len(),
{
    if b.len() == 0 {
        assert(a + b =~= a);
    } else {
        assert((a + b).drop_last() =~= a + b.drop_last());
        lemma_count_true_concat(a, b.drop_last());
    }
}

pub proof fn lemma_count_true_small(s: Seq<bool>)
    requires
        s.len() <= 3,
    ensures
        count_true(s) == (if s.len() > 0 && s[0] { 1int } else { 0int }) + (if s.len() > 1 && s[1] {
            1int
        } else {
            0int
        }) + (if s.len() > 2 && s[2] { 1int } else { 0int }),
{
    reveal_with_fuel(count_true, 4);
    if s.len() > 0 {
        assert(s.drop_last().len() + 1 == s.len());
        if s.len() > 1 {
            assert(s.drop_last().drop_last().len() + 2 == s.len());
        }
        if s.len() > 2 {
            assert(s.drop_last().drop_last().drop_last().len() == 0);
        }
    }
}

} // verus!
