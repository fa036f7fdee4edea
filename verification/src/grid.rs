//! The fixed grid geometry, the column-major fill order, and the running
//! minimum/maximum statistics.

use vstd::prelude::*;

verus! {

/// Side length of the square elevation grid.
pub const GRID_SIDE: usize = 1200;

/// Number of cells in one grid.
pub const GRID_CELLS: usize = 1200 * 1200;

/// Total size in bytes of one encoded output: every cell plus the two
/// trailer words, two bytes each.
pub const BSDF_LEN: usize = 2 * (1200 * 1200 + 2);

/// Buffer position of the `k`-th data line: consecutive lines fill one
/// column (the fast counter runs over rows), so line `k` lands at row
/// `k % 1200`, column `k / 1200`, stored at `row * 1200 + column`.
pub open spec fn cell_index(k: int) -> int {
    (k % 1200) * 1200 + k / 1200
}

/// `cell_index` is an involution on the grid's positions: applying it twice
/// gives the position back, so it is a permutation of `0..GRID_CELLS`.
pub proof fn lemma_cell_index_involution(k: int)
    requires
        0 <= k < 1200 * 1200,
    ensures
        0 <= cell_index(k) < 1200 * 1200,
        cell_index(cell_index(k)) == k,
{
    let x = k / 1200;
    let y = k % 1200;
    vstd::arithmetic::div_mod::lemma_fundamental_div_mod(k, 1200);
    vstd::arithmetic::div_mod::lemma_mod_bound(k, 1200);
    assert(cell_index(k) == y * 1200 + x);
    assert(y * 1200 + x < 1200 * 1200) by (nonlinear_arith)
        requires
            0 <= y < 1200,
            0 <= x < 1200,
    ;
    vstd::arithmetic::div_mod::lemma_fundamental_div_mod_converse(y * 1200 + x, 1200, y, x);
}

/// The grid buffer that a sequence of accepted samples fills: sample `k`
/// stands at `cell_index(k)`; cells no sample reached keep the value zero.
pub open spec fn grid_of(s: Seq<i16>) -> Seq<i16> {
    Seq::new((1200 * 1200) as nat, |j: int| if cell_index(j) < s.len() {
        s[cell_index(j)]
    } else {
        0i16
    })
}

/// Minimum over a sequence of samples, starting from the sentinel
/// `i16::MAX`, as the converter's running statistic computes it.
pub open spec fn min_sample(s: Seq<i16>) -> i16
    decreases s.len(),
{
    if s.len() == 0 {
        i16::MAX
    } else if s.last() < min_sample(s.drop_last()) {
        s.last()
    } else {
        min_sample(s.drop_last())
    }
}

/// Maximum over a sequence of samples, starting from the sentinel
/// `i16::MIN`.
pub open spec fn max_sample(s: Seq<i16>) -> i16
    decreases s.len(),
{
    if s.len() == 0 {
        i16::MIN
    } else if s.last() > max_sample(s.drop_last()) {
        s.last()
    } else {
        max_sample(s.drop_last())
    }
}

/// Appending one sample updates the statistics the way the running
/// comparison in the conversion loop does.
pub proof fn lemma_stats_push(s: Seq<i16>, v: i16)
    ensures
        min_sample(s.push(v)) == if v < min_sample(s) { v } else { min_sample(s) },
        max_sample(s.push(v)) == if v > max_sample(s) { v } else { max_sample(s) },
{
    assert(s.push(v).drop_last() =~= s);
    assert(s.push(v).last() == v);
}

/// The trailer minimum bounds every sample from below, the maximum from
/// above.
pub proof fn lemma_stats_bound(s: Seq<i16>)
    ensures
        forall|k: int| 0 <= k < s.len() ==> min_sample(s) <= #[trigger] s[k],
        forall|k: int| 0 <= k < s.len() ==> #[trigger] s[k] <= max_sample(s),
    decreases s.len(),
{
    if s.len() > 0 {
        lemma_stats_bound(s.drop_last());
        assert forall|k: int| 0 <= k < s.len() implies min_sample(s) <= #[trigger] s[k]
            && s[k] <= max_sample(s) by {
            if k < s.len() - 1 {
                assert(s.drop_last()[k] == s[k]);
                assert(min_sample(s.drop_last()) <= s[k]);
                assert(s[k] <= max_sample(s.drop_last()));
            } else {
                assert(s[k] == s.last());
            }
        }
    }
}

/// On a non-empty sequence each statistic is attained by some sample: the
/// trailer holds the true minimum and the true maximum.
pub proof fn lemma_stats_attained(s: Seq<i16>)
    requires
        s.len() > 0,
    ensures
        exists|k: int| 0 <= k < s.len() && s[k] == min_sample(s),
        exists|k: int| 0 <= k < s.len() && s[k] == max_sample(s),
    decreases s.len(),
{
    if s.len() == 1 {
        assert(s.drop_last().len() == 0);
        assert(min_sample(s.drop_last()) == i16::MAX);
        assert(max_sample(s.drop_last()) == i16::MIN);
        assert(s[0] == s.last());
        assert(s[0] == min_sample(s));
        assert(s[0] == max_sample(s));
    } else {
        lemma_stats_attained(s.drop_last());
        if min_sample(s) == s.last() {
            assert(s[s.len() - 1] == min_sample(s));
        } else {
            let k = choose|k: int| 0 <= k < s.len() - 1 && s.drop_last()[k] == min_sample(
                s.drop_last(),
            );
            assert(s[k] == min_sample(s));
        }
        if max_sample(s) == s.last() {
            assert(s[s.len() - 1] == max_sample(s));
        } else {
            let k = choose|k: int| 0 <= k < s.len() - 1 && s.drop_last()[k] == max_sample(
                s.drop_last(),
            );
            assert(s[k] == max_sample(s));
        }
    }
}

/// On a sequence of all-equal samples both statistics equal that value.
pub proof fn lemma_stats_constant(s: Seq<i16>, v: i16)
    requires
        s.len() > 0,
        forall|k: int| 0 <= k < s.len() ==> #[trigger] s[k] == v,
    ensures
        min_sample(s) == v,
        max_sample(s) == v,
{
    lemma_stats_bound(s);
    lemma_stats_attained(s);
}

} // verus!
