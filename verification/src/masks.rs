//! Sets of positions kept as vectors of flags, and counting their members.

use vstd::prelude::*;
use vstd::seq_lib::seq_to_set_is_finite;
use vstd::set_lib::lemma_len_subset;

verus! {

/// The number of flags that are set.
pub open spec fn count_true(flags: Seq<bool>) -> nat
    decreases flags.len(),
{
    if flags.len() == 0 {
        0
    } else {
        count_true(flags.drop_last()) + if flags.last() {
            1nat
        } else {
            0nat
        }
    }
}

/// No more flags are set than there are flags.
pub proof fn lemma_count_true_bound(flags: Seq<bool>)
    ensures
        count_true(flags) <= flags.len(),
    decreases flags.len(),
{
    if flags.len() > 0 {
        lemma_count_true_bound(flags.drop_last());
    }
}

/// Setting a flag that was clear adds one to the count.
pub proof fn lemma_count_true_update(flags: Seq<bool>, j: int)
    requires
        0 <= j < flags.len(),
        !flags[j],
    ensures
        count_true(flags.update(j, true)) == count_true(flags) + 1,
    decreases flags.len(),
{
    let updated = flags.update(j, true);
    if j == flags.len() - 1 {
        assert(updated.drop_last() == flags.drop_last());
    } else {
        assert(updated.drop_last() == flags.drop_last().update(j, true));
        lemma_count_true_update(flags.drop_last(), j);
    }
}

/// A sequence without repetitions whose elements all occur in another one
/// is no longer than that one.
pub proof fn lemma_pigeonhole<A>(inner: Seq<A>, outer: Seq<A>)
    requires
        inner.no_duplicates(),
        forall|i: int| 0 <= i < inner.len() ==> outer.contains(#[trigger] inner[i]),
    ensures
        inner.len() <= outer.len(),
{
    inner.unique_seq_to_set();
    outer.lemma_cardinality_of_set();
    seq_to_set_is_finite(outer);
    assert forall|x: A| inner.to_set().contains(x) implies outer.to_set().contains(x) by {
        let i = choose|i: int| 0 <= i < inner.len() && inner[i] == x;
        assert(outer.contains(inner[i]));
    }
    lemma_len_subset(inner.to_set(), outer.to_set());
}

/// What a sequence holds after a push: what it held, and the new element.
pub proof fn lemma_push_contains<A>(s: Seq<A>, x: A, y: A)
    ensures
        s.push(x).contains(y) <==> (s.contains(y) || y == x),
{
    let t = s.push(x);
    if t.contains(y) {
        let p = choose|p: int| 0 <= p < t.len() && t[p] == y;
        if p < s.len() {
            assert(s[p] == y);
        }
    }
    if s.contains(y) {
        let p = choose|p: int| 0 <= p < s.len() && s[p] == y;
        assert(t[p] == y);
    }
    if y == x {
        assert(t[s.len() as int] == y);
    }
}

/// The number of flags in all rows.
pub open spec fn total_flags(rows: Seq<Seq<bool>>) -> nat
    decreases rows.len(),
{
    if rows.len() == 0 {
        0
    } else {
        total_flags(rows.drop_last()) + rows.last().len()
    }
}

/// The number of flags that are set, in all rows.
pub open spec fn count_all_true(rows: Seq<Seq<bool>>) -> nat
    decreases rows.len(),
{
    if rows.len() == 0 {
        0
    } else {
        count_all_true(rows.drop_last()) + count_true(rows.last())
    }
}

/// No more flags are set than there are flags.
pub proof fn lemma_count_all_true_bound(rows: Seq<Seq<bool>>)
    ensures
        count_all_true(rows) <= total_flags(rows),
    decreases rows.len(),
{
    if rows.len() > 0 {
        lemma_count_all_true_bound(rows.drop_last());
        lemma_count_true_bound(rows.last());
    }
}

/// Setting a flag that was clear adds one to the count over all rows, and
/// leaves the number of flags as it was.
pub proof fn lemma_count_all_true_update(rows: Seq<Seq<bool>>, i: int, j: int)
    requires
        0 <= i < rows.len(),
        0 <= j < rows[i].len(),
        !rows[i][j],
    ensures
        count_all_true(rows.update(i, rows[i].update(j, true))) == count_all_true(rows) + 1,
        total_flags(rows.update(i, rows[i].update(j, true))) == total_flags(rows),
    decreases rows.len(),
{
    let after = rows.update(i, rows[i].update(j, true));
    if i == rows.len() - 1 {
        assert(after.drop_last() =~= rows.drop_last());
        lemma_count_true_update(rows[i], j);
    } else {
        assert(after.drop_last() =~= rows.drop_last().update(i, rows[i].update(j, true)));
        lemma_count_all_true_update(rows.drop_last(), i, j);
    }
}

/// `n` flags, none of them set.
pub fn new_mask(n: usize) -> (flags: Vec<bool>)
    ensures
        flags@.len() == n,
        forall|i: int| 0 <= i < n ==> !flags@[i],
        count_true(flags@) == 0,
{
    let mut flags: Vec<bool> = Vec::new();
    let mut i: usize = 0;
    while i < n
        invariant
            i <= n,
            flags@.len() == i,
            forall|j: int| 0 <= j < i ==> !flags@[j],
            count_true(flags@) == 0,
        decreases n - i,
    {
        let ghost before = flags@;
        flags.push(false);
        assert(flags@.drop_last() == before);
        i += 1;
    }
    flags
}

/// A copy of `flags` with the flag at `k` set.
pub fn mask_with(flags: &Vec<bool>, k: usize) -> (r: Vec<bool>)
    requires
        k < flags@.len(),
    ensures
        r@ == flags@.update(k as int, true),
{
    let mut r: Vec<bool> = Vec::new();
    let mut i: usize = 0;
    while i < flags.len()
        invariant
            i <= flags.len(),
            k < flags@.len(),
            r@.len() == i,
            forall|j: int| 0 <= j < i ==> r@[j] == (flags@[j] || j == k),
        decreases flags.len() - i,
    {
        r.push(flags[i] || i == k);
        i += 1;
    }
    assert(r@ =~= flags@.update(k as int, true));
    r
}

} // verus!
