//! Sums of naturals, and the facts about them that the protocols rest on.
use crate::curve::group_order;
use vstd::arithmetic::div_mod::lemma_add_mod_noop;
use vstd::prelude::*;

verus! {

/// The sum of a sequence of naturals.
pub open spec fn nat_sum(v: Seq<nat>) -> nat
    decreases v.len(),
{
    if v.len() == 0 {
        0
    } else {
        nat_sum(v.drop_last()) + v.last()
    }
}

/// Taking the entry at `p` out of a sequence takes it out of the sum.
pub proof fn lemma_nat_sum_remove(s: Seq<nat>, p: int)
    requires
        0 <= p < s.len(),
    ensures
        nat_sum(s) == s[p] + nat_sum(s.remove(p)),
    decreases s.len(),
{
    if p == s.len() - 1 {
        assert(s.remove(p) =~= s.drop_last());
    } else {
        lemma_nat_sum_remove(s.drop_last(), p);
        assert(s.remove(p).drop_last() =~= s.drop_last().remove(p));
        assert(s.remove(p).last() == s.last());
    }
}

/// Summing two sequences entry by entry sums their sums.
pub proof fn lemma_nat_sum_pointwise(a: Seq<nat>, b: Seq<nat>, c: Seq<nat>)
    requires
        a.len() == b.len(),
        c.len() == a.len(),
        forall|k: int| 0 <= k < c.len() ==> #[trigger] c[k] == a[k] + b[k],
    ensures
        nat_sum(c) == nat_sum(a) + nat_sum(b),
    decreases c.len(),
{
    if c.len() > 0 {
        lemma_nat_sum_pointwise(a.drop_last(), b.drop_last(), c.drop_last());
    }
}

/// Sequences that agree entry by entry modulo the group order have sums that
/// agree modulo the group order.
pub proof fn lemma_nat_sum_mod(a: Seq<nat>, b: Seq<nat>)
    requires
        a.len() == b.len(),
        forall|k: int| 0 <= k < a.len() ==> #[trigger] a[k] % group_order() == b[k] % group_order(),
    ensures
        nat_sum(a) % group_order() == nat_sum(b) % group_order(),
    decreases a.len(),
{
    if a.len() > 0 {
        let l = group_order() as int;
        lemma_nat_sum_mod(a.drop_last(), b.drop_last());
        assert(a.last() % group_order() == b.last() % group_order());
        lemma_add_mod_noop(nat_sum(a.drop_last()) as int, a.last() as int, l);
        lemma_add_mod_noop(nat_sum(b.drop_last()) as int, b.last() as int, l);
    }
}

/// Column `k` of a table given by rows.
pub open spec fn column(rows: Seq<Seq<nat>>, k: int) -> Seq<nat> {
    Seq::new(rows.len(), |p: int| rows[p][k])
}

/// The sum of each row.
pub open spec fn row_sums(rows: Seq<Seq<nat>>) -> Seq<nat> {
    Seq::new(rows.len(), |p: int| nat_sum(rows[p]))
}

/// The sum of each of the first `n` columns.
pub open spec fn column_sums(rows: Seq<Seq<nat>>, n: nat) -> Seq<nat> {
    Seq::new(n, |k: int| nat_sum(column(rows, k)))
}

/// The sum of a table is the same by rows and by columns.
pub proof fn lemma_sum_interchange(rows: Seq<Seq<nat>>, n: nat)
    requires
        forall|p: int| 0 <= p < rows.len() ==> #[trigger] rows[p].len() == n,
    ensures
        nat_sum(column_sums(rows, n)) == nat_sum(row_sums(rows)),
    decreases n,
{
    if n == 0 {
        let zeros = Seq::new(rows.len(), |p: int| 0nat);
        lemma_nat_sum_pointwise(zeros, zeros, zeros);
        assert forall|p: int| 0 <= p < rows.len() implies #[trigger] row_sums(rows)[p] == zeros[p] by {
            assert(rows[p].len() == 0);
        }
        assert(row_sums(rows) =~= zeros);
        assert(column_sums(rows, n) =~= Seq::<nat>::empty());
    } else {
        let short = Seq::new(rows.len(), |p: int| rows[p].drop_last());
        lemma_sum_interchange(short, (n - 1) as nat);
        assert forall|k: int| 0 <= k < n - 1 implies #[trigger] column(short, k) =~= column(
            rows,
            k,
        ) by {}
        assert(column_sums(rows, n).drop_last() =~= column_sums(short, (n - 1) as nat));
        let last = column(rows, n - 1);
        assert forall|p: int| 0 <= p < rows.len() implies #[trigger] row_sums(rows)[p]
            == row_sums(short)[p] + last[p] by {
            assert(rows[p].drop_last() == short[p]);
        }
        lemma_nat_sum_pointwise(row_sums(short), last, row_sums(rows));
    }
}


/// Scaling every entry by `c` scales the sum by `c`.
pub proof fn lemma_nat_sum_scale(a: Seq<nat>, c: nat, b: Seq<nat>)
    requires
        b.len() == a.len(),
        forall|k: int| 0 <= k < a.len() ==> #[trigger] b[k] == c * a[k],
    ensures
        nat_sum(b) == c * nat_sum(a),
    decreases a.len(),
{
    if a.len() > 0 {
        lemma_nat_sum_scale(a.drop_last(), c, b.drop_last());
        let s = nat_sum(a.drop_last());
        assert(b.last() == c * a.last());
        assert(c * (s + a.last()) == c * s + c * a.last()) by (nonlinear_arith);
    } else {
        assert(c * 0 == 0) by (nonlinear_arith);
    }
}

} // verus!
