use vstd::prelude::*;

use crate::text::{inums_of, ivals, parse_inums};

verus! {

/// Is every reading zero?
pub open spec fn all_zero(r: Seq<int>) -> bool {
    forall|i: int| 0 <= i < r.len() ==> #[trigger] r[i] == 0
}

/// The difference sequence of consecutive readings.
pub open spec fn diffs(r: Seq<int>) -> Seq<int> {
    if r.len() == 0 {
        Seq::empty()
    } else {
        Seq::new((r.len() - 1) as nat, |i: int| r[i + 1] - r[i])
    }
}

/// The extrapolated next reading: zero for an all-zero history, else the
/// last reading plus the next reading of the difference sequence.
pub open spec fn est_next(r: Seq<int>) -> int
    decreases r.len(),
{
    if all_zero(r) {
        0
    } else {
        r[r.len() - 1] + est_next(diffs(r))
    }
}

/// The extrapolated previous reading: zero for an all-zero history, else
/// the first reading minus the previous reading of the differences.
pub open spec fn est_prev(r: Seq<int>) -> int
    decreases r.len(),
{
    if all_zero(r) {
        0
    } else {
        r[0] - est_prev(diffs(r))
    }
}

/// Two to the power `n`.
pub open spec fn p2(n: nat) -> int
    decreases n,
{
    if n == 0 {
        1
    } else {
        2 * p2((n - 1) as nat)
    }
}

pub proof fn lemma_p2_pos(n: nat)
    ensures
        p2(n) >= 1,
    decreases n,
{
    if n > 0 {
        lemma_p2_pos((n - 1) as nat);
    }
}

pub proof fn lemma_p2_mono(m: nat, n: nat)
    requires
        m <= n,
    ensures
        p2(m) <= p2(n),
    decreases n,
{
    if m < n {
        lemma_p2_mono(m, (n - 1) as nat);
        lemma_p2_pos((n - 1) as nat);
    }
}

/// The starting budget of the extrapolation loops: readings bounded by
/// one hundred million over at most 32 rounds of doubling stay within
/// `i64`.
proof fn lemma_initial_budget(len: nat)
    requires
        len <= 32,
    ensures
        0 <= 100_000_000 * (p2((len + 1) as nat) - 2) <= i64::MAX,
    decreases len,
{
    lemma_p2_mono((len + 1) as nat, 33);
    lemma_p2_mono(1, (len + 1) as nat);
    assert(p2(0) == 1);
    assert(p2(1) == 2);
    assert(p2(33) == 0x2_0000_0000) by {
        reveal_with_fuel(p2, 34);
    }
    assert(100_000_000 * (p2((len + 1) as nat) - 2) <= 100_000_000 * (0x2_0000_0000 - 2))
        by (nonlinear_arith)
        requires
            p2((len + 1) as nat) <= 0x2_0000_0000,
    ;
    assert(0 <= 100_000_000 * (p2((len + 1) as nat) - 2)) by (nonlinear_arith)
        requires
            p2((len + 1) as nat) >= 2,
    ;
}

/// Are all readings zero?
fn all_zero_exec(v: &Vec<i64>) -> (r: bool)
    ensures
        r == all_zero(ivals(v@)),
{
    let mut i: usize = 0;
    while i < v.len()
        invariant
            0 <= i <= v@.len(),
            forall|k: int| 0 <= k < i ==> #[trigger] v@[k] == 0,
        decreases v@.len() - i,
    {
        if v[i] != 0 {
            proof {
                assert(ivals(v@)[i as int] != 0);
            }
            return false;
        }
        i = i + 1;
    }
    proof {
        assert(forall|k: int| 0 <= k < v@.len() ==> ivals(v@)[k] == #[trigger] v@[k] as int);
    }
    true
}

/// The difference sequence, with all readings bounded by `cap`.
fn diffs_exec(v: &Vec<i64>, Ghost(cap): Ghost<int>) -> (r: Vec<i64>)
    requires
        0 <= cap,
        2 * cap <= i64::MAX,
        forall|i: int| 0 <= i < v@.len() ==> -cap <= #[trigger] v@[i] <= cap,
        v@.len() >= 1,
    ensures
        ivals(r@) == diffs(ivals(v@)),
        r@.len() == v@.len() - 1,
        forall|i: int| 0 <= i < r@.len() ==> -(2 * cap) <= #[trigger] r@[i] <= 2 * cap,
{
    let mut r: Vec<i64> = Vec::new();
    let mut i: usize = 0;
    while i < v.len() - 1
        invariant
            0 <= i <= v@.len() - 1,
            0 <= cap,
            2 * cap <= i64::MAX,
            forall|k: int| 0 <= k < v@.len() ==> -cap <= #[trigger] v@[k] <= cap,
            r@.len() == i,
            forall|k: int| 0 <= k < i ==> #[trigger] r@[k] == v@[k + 1] - v@[k],
            forall|k: int| 0 <= k < i ==> -(2 * cap) <= #[trigger] r@[k] <= 2 * cap,
        decreases v@.len() - 1 - i,
    {
        r.push(v[i + 1] - v[i]);
        i = i + 1;
    }
    proof {
        assert(ivals(r@) =~= diffs(ivals(v@)));
    }
    r
}

/// Extrapolates the next reading of a history by iterated differences.
pub fn estimate_next(row: Vec<i64>) -> (r: i64)
    requires
        row@.len() <= 32,
        forall|i: int| 0 <= i < row@.len() ==> -100_000_000 <= #[trigger] row@[i] <= 100_000_000,
    ensures
        r == est_next(ivals(row@)),
{
    let ghost orig = ivals(row@);
    let mut row = row;
    let mut acc: i64 = 0;
    let ghost mut cap: int = 100_000_000;
    proof {
        lemma_p2_pos((row@.len() + 1) as nat);
        lemma_initial_budget(row@.len());
    }
    while !all_zero_exec(&row)
        invariant
            0 <= cap,
            forall|i: int| 0 <= i < row@.len() ==> -cap <= #[trigger] row@[i] <= cap,
            est_next(orig) == acc + est_next(ivals(row@)),
            -(i64::MAX as int) <= acc + cap * (p2((row@.len() + 1) as nat) - 2),
            acc - cap * (p2((row@.len() + 1) as nat) - 2) <= i64::MAX,
            acc + cap * (p2((row@.len() + 1) as nat) - 2) <= i64::MAX,
            -(i64::MAX as int) <= acc - cap * (p2((row@.len() + 1) as nat) - 2),
        decreases row@.len(),
    {
        let ghost rv = ivals(row@);
        proof {
            if row@.len() == 0 {
                assert(all_zero(rv));
            }
        }
        let last = row[row.len() - 1];
        proof {
            assert(rv[rv.len() - 1] == last as int);
            lemma_p2_pos((row@.len()) as nat);
            assert(p2((row@.len() + 1) as nat) == 2 * p2((row@.len()) as nat));
            assert(cap * (p2((row@.len() + 1) as nat) - 2) == 2 * (cap * (p2(
                (row@.len()) as nat,
            ) - 2)) + 2 * cap) by (nonlinear_arith);
            assert(cap * (p2((row@.len()) as nat) - 2) >= -cap) by (nonlinear_arith)
                requires
                    0 <= cap,
                    p2((row@.len()) as nat) >= 1,
            ;
        }
        acc = acc + last;
        let row2 = diffs_exec(&row, Ghost(cap));
        proof {
            assert((2 * cap) * (p2((row2@.len() + 1) as nat) - 2) == 2 * (cap * (p2(
                (row@.len()) as nat,
            ) - 2))) by (nonlinear_arith)
                requires
                    row2@.len() + 1 == row@.len(),
            ;
            assert(est_next(rv) == rv[rv.len() - 1] + est_next(diffs(rv)));
        }
        row = row2;
        proof {
            cap = 2 * cap;
        }
    }
    acc
}

/// Extrapolates the previous reading of a history.
pub fn estimate_previous(row: Vec<i64>) -> (r: i64)
    requires
        row@.len() <= 32,
        forall|i: int| 0 <= i < row@.len() ==> -100_000_000 <= #[trigger] row@[i] <= 100_000_000,
    ensures
        r == est_prev(ivals(row@)),
{
    let ghost orig = ivals(row@);
    let mut row = row;
    let mut acc: i64 = 0;
    let mut positive = true;
    let ghost mut cap: int = 100_000_000;
    proof {
        lemma_p2_pos((row@.len() + 1) as nat);
        lemma_initial_budget(row@.len());
    }
    while !all_zero_exec(&row)
        invariant
            0 <= cap,
            forall|i: int| 0 <= i < row@.len() ==> -cap <= #[trigger] row@[i] <= cap,
            est_prev(orig) == acc + if positive {
                est_prev(ivals(row@))
            } else {
                -est_prev(ivals(row@))
            },
            -(i64::MAX as int) <= acc + cap * (p2((row@.len() + 1) as nat) - 2),
            acc - cap * (p2((row@.len() + 1) as nat) - 2) <= i64::MAX,
            acc + cap * (p2((row@.len() + 1) as nat) - 2) <= i64::MAX,
            -(i64::MAX as int) <= acc - cap * (p2((row@.len() + 1) as nat) - 2),
        decreases row@.len(),
    {
        let ghost rv = ivals(row@);
        proof {
            if row@.len() == 0 {
                assert(all_zero(rv));
            }
        }
        let first = row[0];
        proof {
            assert(rv[0] == first as int);
            lemma_p2_pos((row@.len()) as nat);
            assert(p2((row@.len() + 1) as nat) == 2 * p2((row@.len()) as nat));
            assert(cap * (p2((row@.len() + 1) as nat) - 2) == 2 * (cap * (p2(
                (row@.len()) as nat,
            ) - 2)) + 2 * cap) by (nonlinear_arith);
            assert(cap * (p2((row@.len()) as nat) - 2) >= -cap) by (nonlinear_arith)
                requires
                    0 <= cap,
                    p2((row@.len()) as nat) >= 1,
            ;
        }
        if positive {
            acc = acc + first;
        } else {
            acc = acc - first;
        }
        positive = !positive;
        let row2 = diffs_exec(&row, Ghost(cap));
        proof {
            assert((2 * cap) * (p2((row2@.len() + 1) as nat) - 2) == 2 * (cap * (p2(
                (row@.len()) as nat,
            ) - 2))) by (nonlinear_arith)
                requires
                    row2@.len() + 1 == row@.len(),
            ;
            assert(est_prev(rv) == rv[0] - est_prev(diffs(rv)));
        }
        row = row2;
        proof {
            cap = 2 * cap;
        }
    }
    acc
}


/// A history line the extrapolators accept: at most 32 readings, each of
/// magnitude at most one hundred million.
pub open spec fn readings_ok(vals: Seq<int>) -> bool {
    &&& vals.len() <= 32
    &&& forall|i: int| 0 <= i < vals.len() ==> -100_000_000 <= #[trigger] vals[i] <= 100_000_000
}

/// The sum of the extrapolated next readings of the first `k` lines, or
/// `None` when a line fails to parse, exceeds the extrapolators' bounds,
/// or the running sum leaves `i64` range.
pub open spec fn sum_next(lines: Seq<Seq<char>>, k: int) -> Option<int>
    decreases k,
{
    if k <= 0 {
        Some(0)
    } else {
        match sum_next(lines, k - 1) {
            None => None,
            Some(acc) => match inums_of(lines[k - 1]) {
                None => None,
                Some(vals) => {
                    if readings_ok(vals) {
                        let v = acc + est_next(vals);
                        if i64::MIN <= v <= i64::MAX {
                            Some(v)
                        } else {
                            None
                        }
                    } else {
                        None
                    }
                },
            },
        }
    }
}

/// The sum of the extrapolated previous readings of the first `k` lines.
pub open spec fn sum_prev(lines: Seq<Seq<char>>, k: int) -> Option<int>
    decreases k,
{
    if k <= 0 {
        Some(0)
    } else {
        match sum_prev(lines, k - 1) {
            None => None,
            Some(acc) => match inums_of(lines[k - 1]) {
                None => None,
                Some(vals) => {
                    if readings_ok(vals) {
                        let v = acc + est_prev(vals);
                        if i64::MIN <= v <= i64::MAX {
                            Some(v)
                        } else {
                            None
                        }
                    } else {
                        None
                    }
                },
            },
        }
    }
}

/// Once either sum has failed, it stays failed for longer prefixes.
proof fn lemma_sum_none(lines: Seq<Seq<char>>, k: int, m: int, prev: bool)
    requires
        k <= m,
        prev ==> sum_prev(lines, k) is None,
        !prev ==> sum_next(lines, k) is None,
    ensures
        prev ==> sum_prev(lines, m) is None,
        !prev ==> sum_next(lines, m) is None,
    decreases m - k,
{
    if m > k {
        lemma_sum_none(lines, k, m - 1, prev);
    }
}

/// Do the readings satisfy the extrapolators' bounds?
fn readings_ok_exec(v: &Vec<i64>) -> (r: bool)
    ensures
        r == readings_ok(ivals(v@)),
{
    if v.len() > 32 {
        proof {
            assert(ivals(v@).len() == v@.len());
        }
        return false;
    }
    let mut i: usize = 0;
    while i < v.len()
        invariant
            0 <= i <= v@.len(),
            v@.len() <= 32,
            forall|k: int| 0 <= k < i ==> -100_000_000 <= #[trigger] v@[k] <= 100_000_000,
        decreases v@.len() - i,
    {
        if v[i] < -100_000_000 || v[i] > 100_000_000 {
            proof {
                assert(ivals(v@)[i as int] == v@[i as int] as int);
            }
            return false;
        }
        i = i + 1;
    }
    proof {
        assert(ivals(v@).len() == v@.len());
        assert(forall|k: int| 0 <= k < v@.len() ==> ivals(v@)[k] == #[trigger] v@[k] as int);
    }
    true
}

/// Sums the extrapolated next reading of every line.
pub fn nineth_task_1(lines: &Vec<String>) -> (r: Option<i64>)
    ensures
        match r {
            Some(v) => sum_next(lines.deep_view(), lines.deep_view().len() as int) == Some(
                v as int,
            ),
            None => sum_next(lines.deep_view(), lines.deep_view().len() as int) is None,
        },
{
    let ghost lv = lines.deep_view();
    proof {
        assert(lv.len() == lines@.len());
        assert(forall|k: int| 0 <= k < lv.len() ==> #[trigger] lv[k] == lines@[k]@);
    }
    let mut acc: i64 = 0;
    let mut i: usize = 0;
    while i < lines.len()
        invariant
            lv == lines.deep_view(),
            lv.len() == lines@.len(),
            forall|k: int| 0 <= k < lv.len() ==> #[trigger] lv[k] == lines@[k]@,
            0 <= i <= lv.len(),
            sum_next(lv, i as int) == Some(acc as int),
        decreases lv.len() - i,
    {
        let row = match parse_inums(lines[i].as_str()) {
            Some(v) => v,
            None => {
                proof {
                    lemma_sum_none(lv, i as int + 1, lv.len() as int, false);
                }
                return None;
            },
        };
        if !readings_ok_exec(&row) {
            proof {
                lemma_sum_none(lv, i as int + 1, lv.len() as int, false);
            }
            return None;
        }
        let ghost rvals = ivals(row@);
        proof {
            assert(forall|k: int| 0 <= k < row@.len() ==> rvals[k] == #[trigger] row@[k] as int);
        }
        let est = estimate_next(row);
        match acc.checked_add(est) {
            Some(a2) => {
                acc = a2;
            },
            None => {
                proof {
                    assert(sum_next(lv, i as int + 1) is None);
                    lemma_sum_none(lv, i as int + 1, lv.len() as int, false);
                }
                return None;
            },
        }
        i = i + 1;
    }
    Some(acc)
}

/// Sums the extrapolated previous reading of every line.
pub fn nineth_task_2(lines: &Vec<String>) -> (r: Option<i64>)
    ensures
        match r {
            Some(v) => sum_prev(lines.deep_view(), lines.deep_view().len() as int) == Some(
                v as int,
            ),
            None => sum_prev(lines.deep_view(), lines.deep_view().len() as int) is None,
        },
{
    let ghost lv = lines.deep_view();
    proof {
        assert(lv.len() == lines@.len());
        assert(forall|k: int| 0 <= k < lv.len() ==> #[trigger] lv[k] == lines@[k]@);
    }
    let mut acc: i64 = 0;
    let mut i: usize = 0;
    while i < lines.len()
        invariant
            lv == lines.deep_view(),
            lv.len() == lines@.len(),
            forall|k: int| 0 <= k < lv.len() ==> #[trigger] lv[k] == lines@[k]@,
            0 <= i <= lv.len(),
            sum_prev(lv, i as int) == Some(acc as int),
        decreases lv.len() - i,
    {
        let row = match parse_inums(lines[i].as_str()) {
            Some(v) => v,
            None => {
                proof {
                    lemma_sum_none(lv, i as int + 1, lv.len() as int, true);
                }
                return None;
            },
        };
        if !readings_ok_exec(&row) {
            proof {
                lemma_sum_none(lv, i as int + 1, lv.len() as int, true);
            }
            return None;
        }
        let ghost rvals = ivals(row@);
        proof {
            assert(forall|k: int| 0 <= k < row@.len() ==> rvals[k] == #[trigger] row@[k] as int);
        }
        let est = estimate_previous(row);
        match acc.checked_add(est) {
            Some(a2) => {
                acc = a2;
            },
            None => {
                proof {
                    assert(sum_prev(lv, i as int + 1) is None);
                    lemma_sum_none(lv, i as int + 1, lv.len() as int, true);
                }
                return None;
            },
        }
        i = i + 1;
    }
    Some(acc)
}

} // verus!
