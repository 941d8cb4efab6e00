use vstd::arithmetic::div_mod::lemma_fundamental_div_mod;
use vstd::arithmetic::mul::lemma_mul_inequality;
use vstd::prelude::*;

verus! {

/// Euclid's greatest common divisor, with `gcd(0, b) == b`.
pub open spec fn spec_gcd(a: nat, b: nat) -> nat
    decreases a,
{
    if a == 0 {
        b
    } else {
        spec_gcd(b % a, a)
    }
}

/// `k` copies of `d`.
pub open spec fn multiple(k: nat, d: nat) -> nat {
    k * d
}

/// `d` divides `x`.
pub open spec fn divides(d: nat, x: nat) -> bool {
    exists|k: nat| #[trigger] multiple(k, d) == x
}

/// `spec_gcd(a, b)` is a common divisor of `a` and `b` that every common divisor divides.
pub proof fn lemma_gcd_is_greatest_common_divisor(a: nat, b: nat)
    ensures
        divides(spec_gcd(a, b), a),
        divides(spec_gcd(a, b), b),
        forall|d: nat| divides(d, a) && divides(d, b) ==> #[trigger] divides(d, spec_gcd(a, b)),
    decreases a,
{
    if a == 0 {
        assert(multiple(0, b) == 0);
        assert(multiple(1, b) == b);
    } else {
        let r = b % a;
        let q = b / a;
        let g = spec_gcd(r, a);
        lemma_gcd_is_greatest_common_divisor(r, a);
        lemma_fundamental_div_mod(b as int, a as int);
        assert(b == a * q + r);
        let kr = choose|k: nat| #[trigger] multiple(k, g) == r;
        let ka = choose|k: nat| #[trigger] multiple(k, g) == a;
        assert(multiple(q * ka + kr, g) == b) by (nonlinear_arith)
            requires
                kr * g == r,
                ka * g == a,
                b == a * q + r,
        {
        }
        assert forall|d: nat| divides(d, a) && divides(d, b) implies #[trigger] divides(d, g) by {
            let da = choose|k: nat| #[trigger] multiple(k, d) == a;
            let db = choose|k: nat| #[trigger] multiple(k, d) == b;
            assert(d > 0) by (nonlinear_arith)
                requires
                    da * d == a,
                    a > 0,
            {
            }
            assert(db >= q * da) by {
                assert((q * da) * d <= db * d) by (nonlinear_arith)
                    requires
                        da * d == a,
                        db * d == b,
                        b == a * q + r,
                        r >= 0,
                {
                }
                if db < q * da {
                    lemma_mul_inequality((db + 1) as int, (q * da) as int, d as int);
                    assert((db + 1) * d == db * d + d) by (nonlinear_arith);
                }
            }
            let k = (db - q * da) as nat;
            assert(multiple(k, d) == r) by (nonlinear_arith)
                requires
                    k == db - q * da,
                    da * d == a,
                    db * d == b,
                    b == a * q + r,
            {
            }
        }
    }
}

/// The greatest common divisor of `a` and `b`, by Euclid's algorithm.
pub fn gcd(a: u64, b: u64) -> (r: u64)
    ensures
        r == spec_gcd(a as nat, b as nat),
    decreases a,
{
    match a {
        0 => b,
        _ => gcd(b % a, a),
    }
}

/// `gcd(x, x) == x`.
proof fn lemma_gcd_self(x: nat)
    ensures
        spec_gcd(x, x) == x,
{
    if x > 0 {
        assert(x % x == 0) by (nonlinear_arith)
            requires
                x > 0,
        {
        }
        assert(spec_gcd(0, x) == x);
    }
}

/// The gcd is zero only for two zeros.
proof fn lemma_gcd_zero(a: nat, b: nat)
    ensures
        spec_gcd(a, b) == 0 ==> a == 0 && b == 0,
    decreases a,
{
    if a > 0 {
        lemma_gcd_zero(b % a, a);
    }
}

/// The gcd of `s[l..=r]`, merging from the left.
pub open spec fn range_gcd(s: Seq<u64>, l: int, r: int) -> nat
    decreases r - l,
{
    if r <= l {
        s[l] as nat
    } else {
        spec_gcd(range_gcd(s, l, r - 1), s[r] as nat)
    }
}

/// The length of `s[l..=r]` times its gcd.
pub open spec fn score(s: Seq<u64>, l: int, r: int) -> nat {
    ((r - l + 1) as nat) * range_gcd(s, l, r)
}

/// A longer range that ends at the same place and has the same gcd scores at least as much.
proof fn lemma_score_le(s: Seq<u64>, l0: int, l: int, r: int)
    requires
        l0 <= l <= r,
        range_gcd(s, l0, r) == range_gcd(s, l, r),
    ensures
        score(s, l, r) <= score(s, l0, r),
{
    lemma_mul_inequality(r - l + 1, r - l0 + 1, range_gcd(s, l, r) as int);
}

/// The runs `q` of the ranges that end at `r`: each holds a start and the gcd from there to
/// `r`, and the starts increase.
#[verifier::opaque]
spec fn runs_end_at(s: Seq<u64>, q: Seq<(usize, u64)>, r: int) -> bool {
    &&& forall|k: int| 0 <= k < q.len() ==> (#[trigger] q[k]).0 <= r && q[k].1 == range_gcd(s, q[k].0 as int, r)
    &&& forall|k: int, m: int| 0 <= k < m < q.len() ==> (#[trigger] q[k]).0 < (#[trigger] q[m]).0
}

/// The range `s[l..=r]` has the gcd of a run in `q` that starts no later than `l`.
spec fn run_covers(s: Seq<u64>, q: Seq<(usize, u64)>, l: int, r: int) -> bool {
    exists|k: int| 0 <= k < q.len() && (#[trigger] q[k]).0 <= l && q[k].1 == range_gcd(s, l, r)
}

/// Every range that ends at `r` has the gcd of a run in `q` that starts no later.
#[verifier::opaque]
spec fn runs_cover(s: Seq<u64>, q: Seq<(usize, u64)>, r: int) -> bool {
    forall|l: int| 0 <= l <= r ==> #[trigger] run_covers(s, q, l, r)
}

/// Merged with `cur`, a pending run in `q` that starts no later than `l` has the gcd of
/// `s[l..=i]`.
spec fn pending_covers(s: Seq<u64>, q: Seq<(usize, u64)>, l: int, i: int, cur: u64) -> bool {
    exists|m: int| 0 <= m < q.len() && (#[trigger] q[m]).0 <= l && spec_gcd(q[m].1 as nat, cur as nat) == range_gcd(s, l, i)
}

/// A new run in `nq` starts no later than the pending run `q[m]` and has its merged gcd.
spec fn merged_one(q: Seq<(usize, u64)>, nq: Seq<(usize, u64)>, m: int, cur: u64) -> bool {
    exists|k: int| 0 <= k < nq.len() && (#[trigger] nq[k]).0 <= q[m].0 && nq[k].1 == spec_gcd(q[m].1 as nat, cur as nat)
}

/// The runs `q` of the ranges that end at `i - 1`, with the one-element range at `i` added,
/// give the gcds of the ranges that end at `i` once merged with `cur`.
#[verifier::opaque]
spec fn pending_runs(s: Seq<u64>, q: Seq<(usize, u64)>, i: int, cur: u64) -> bool {
    &&& forall|k: int| 0 <= k < q.len() ==> (#[trigger] q[k]).0 <= i && spec_gcd(q[k].1 as nat, cur as nat) == range_gcd(s, q[k].0 as int, i)
    &&& forall|k: int, m: int| 0 <= k < m < q.len() ==> (#[trigger] q[k]).0 < (#[trigger] q[m]).0
    &&& forall|l: int| 0 <= l <= i ==> #[trigger] pending_covers(s, q, l, i, cur)
}

/// Each of the first `j` pending runs has a new run that starts no later with its new gcd.
#[verifier::opaque]
spec fn merged_upto(q: Seq<(usize, u64)>, nq: Seq<(usize, u64)>, j: int, cur: u64) -> bool {
    forall|m: int| 0 <= m < j ==> #[trigger] merged_one(q, nq, m, cur)
}

/// Every run of `nq` starts at or before `bound`.
#[verifier::opaque]
spec fn starts_at_most(nq: Seq<(usize, u64)>, bound: int) -> bool {
    forall|k: int| 0 <= k < nq.len() ==> (#[trigger] nq[k]).0 <= bound
}

/// `best` is the largest score of a range that starts where a run of `nq` starts and ends
/// at `i`.
#[verifier::opaque]
spec fn best_of_runs(s: Seq<u64>, nq: Seq<(usize, u64)>, i: int, best: u64) -> bool {
    &&& forall|k: int| 0 <= k < nq.len() ==> score(s, (#[trigger] nq[k]).0 as int, i) <= best
    &&& nq.len() > 0 ==> exists|k: int| 0 <= k < nq.len() && score(s, (#[trigger] nq[k]).0 as int, i) == best
    &&& nq.len() == 0 ==> best == 0
}

/// Adding the one-element range at `i` to the runs that end at `i - 1` gives pending runs.
proof fn lemma_pending(s: Seq<u64>, old_que: Seq<(usize, u64)>, i: int, iu: usize, cur: u64)
    requires
        iu == i,
        0 <= i < s.len(),
        cur == s[i],
        s[0] != 0,
        i == 0 ==> old_que.len() == 0,
        i > 0 ==> old_que.len() > 0 && old_que[0].0 == 0 && old_que[0].1 != 0,
        i > 0 ==> runs_end_at(s, old_que, i - 1) && runs_cover(s, old_que, i - 1),
    ensures
        pending_runs(s, old_que.push((iu, cur)), i, cur),
        old_que.push((iu, cur))[0].0 == 0,
        spec_gcd(old_que.push((iu, cur))[0].1 as nat, cur as nat) != 0,
{
    reveal(runs_end_at);
    reveal(runs_cover);
    reveal(pending_runs);
    let q = old_que.push((iu, cur));
    lemma_gcd_self(cur as nat);
    assert forall|k: int| 0 <= k < q.len() implies (#[trigger] q[k]).0 <= i && spec_gcd(q[k].1 as nat, cur as nat) == range_gcd(s, q[k].0 as int, i) by {
        if k < q.len() - 1 {
            assert(q[k] == old_que[k]);
        }
    }
    assert forall|l: int| 0 <= l <= i implies #[trigger] pending_covers(s, q, l, i, cur) by {
        if l < i {
            assert(run_covers(s, old_que, l, i - 1));
            let k = choose|k: int| 0 <= k < old_que.len() && (#[trigger] old_que[k]).0 <= l && old_que[k].1 == range_gcd(s, l, i - 1);
            assert(q[k] == old_que[k]);
            assert(spec_gcd(q[k].1 as nat, cur as nat) == range_gcd(s, l, i));
        } else {
            assert(q[q.len() - 1] == (iu, cur));
            assert(spec_gcd(q[q.len() - 1].1 as nat, cur as nat) == range_gcd(s, l, i));
        }
    }
    assert forall|k: int, m: int| 0 <= k < m < q.len() implies (#[trigger] q[k]).0 < (#[trigger] q[m]).0 by {
        if m < q.len() - 1 {
            assert(q[k] == old_que[k] && q[m] == old_que[m]);
        } else {
            assert(q[k] == old_que[k]);
        }
    }
    if i == 0 {
        assert(q[0] == (0usize, cur));
    } else {
        assert(q[0] == old_que[0]);
        lemma_gcd_zero(q[0].1 as nat, cur as nat);
    }
}

/// Recording a pending run whose merged gcd differs from the last new run.
proof fn lemma_record_run(
    s: Seq<u64>,
    q: Seq<(usize, u64)>,
    before: Seq<(usize, u64)>,
    i: int,
    cur: u64,
    j: int,
    old_best: u64,
    best: u64,
)
    requires
        pending_runs(s, q, i, cur),
        0 <= j < q.len(),
        runs_end_at(s, before, i),
        merged_upto(q, before, j, cur),
        j > 0 ==> starts_at_most(before, q[j - 1].0 as int),
        j == 0 ==> before.len() == 0,
        best_of_runs(s, before, i, old_best),
        spec_gcd(q[j].1 as nat, cur as nat) <= u64::MAX,
        best == if score(s, q[j].0 as int, i) > old_best { score(s, q[j].0 as int, i) } else { old_best as nat },
    ensures
        runs_end_at(s, before.push((q[j].0, spec_gcd(q[j].1 as nat, cur as nat) as u64)), i),
        merged_upto(q, before.push((q[j].0, spec_gcd(q[j].1 as nat, cur as nat) as u64)), j + 1, cur),
        starts_at_most(before.push((q[j].0, spec_gcd(q[j].1 as nat, cur as nat) as u64)), q[j].0 as int),
        best_of_runs(s, before.push((q[j].0, spec_gcd(q[j].1 as nat, cur as nat) as u64)), i, best),
{
    let g = spec_gcd(q[j].1 as nat, cur as nat);
    let nq = before.push((q[j].0, g as u64));
    assert forall|k: int| 0 <= k < before.len() implies #[trigger] nq[k] == before[k] by {}
    assert(nq[nq.len() - 1] == (q[j].0, g as u64));
    assert(q[j].0 <= i && g == range_gcd(s, q[j].0 as int, i)) by {
        reveal(pending_runs);
    }
    if j > 0 {
        assert(q[j - 1].0 < q[j].0) by {
            reveal(pending_runs);
        }
    }
    lemma_record_ends(s, before, nq, i, if j > 0 { q[j - 1].0 as int } else { 0 });
    lemma_record_merged(q, before, nq, cur, j);
    lemma_record_best(s, before, nq, i, old_best, best);
}

/// A run appended after the others, and after `bound`, keeps the runs well ordered.
proof fn lemma_record_ends(s: Seq<u64>, before: Seq<(usize, u64)>, nq: Seq<(usize, u64)>, i: int, bound: int)
    requires
        nq.len() == before.len() + 1,
        forall|k: int| 0 <= k < before.len() ==> #[trigger] nq[k] == before[k],
        runs_end_at(s, before, i),
        nq[nq.len() - 1].0 <= i,
        nq[nq.len() - 1].1 == range_gcd(s, nq[nq.len() - 1].0 as int, i),
        before.len() > 0 ==> starts_at_most(before, bound) && bound < nq[nq.len() - 1].0,
    ensures
        runs_end_at(s, nq, i),
{
    reveal(runs_end_at);
    reveal(starts_at_most);
    let last = nq.len() - 1;
    assert forall|k: int, m: int| 0 <= k < m < nq.len() implies (#[trigger] nq[k]).0 < (#[trigger] nq[m]).0 by {
        assert(nq[k] == before[k]);
        if m < last {
            assert(nq[m] == before[m]);
        }
    }
    assert forall|k: int| 0 <= k < nq.len() implies (#[trigger] nq[k]).0 <= i && nq[k].1 == range_gcd(s, nq[k].0 as int, i) by {
        if k < last {
            assert(nq[k] == before[k]);
        }
    }
}

/// The appended run stands for the pending run `q[j]`.
proof fn lemma_record_merged(q: Seq<(usize, u64)>, before: Seq<(usize, u64)>, nq: Seq<(usize, u64)>, cur: u64, j: int)
    requires
        0 <= j < q.len(),
        nq.len() == before.len() + 1,
        forall|k: int| 0 <= k < before.len() ==> #[trigger] nq[k] == before[k],
        nq[nq.len() - 1].0 == q[j].0,
        nq[nq.len() - 1].1 == spec_gcd(q[j].1 as nat, cur as nat),
        merged_upto(q, before, j, cur),
        j > 0 ==> q[j - 1].0 < q[j].0 && starts_at_most(before, q[j - 1].0 as int),
        j == 0 ==> before.len() == 0,
    ensures
        merged_upto(q, nq, j + 1, cur),
        starts_at_most(nq, q[j].0 as int),
{
    reveal(merged_upto);
    reveal(starts_at_most);
    let last = nq.len() - 1;
    assert forall|m: int| 0 <= m < j + 1 implies #[trigger] merged_one(q, nq, m, cur) by {
        if m < j {
            assert(merged_one(q, before, m, cur));
            let k = choose|k: int| 0 <= k < before.len() && (#[trigger] before[k]).0 <= q[m].0 && before[k].1 == spec_gcd(q[m].1 as nat, cur as nat);
            assert(nq[k] == before[k]);
        } else {
            assert(nq[last].0 <= q[m].0);
        }
    }
    assert forall|k: int| 0 <= k < nq.len() implies (#[trigger] nq[k]).0 <= q[j].0 by {
        if k < last {
            assert(nq[k] == before[k]);
        }
    }
}

/// The best score over the runs, one run longer.
proof fn lemma_record_best(s: Seq<u64>, before: Seq<(usize, u64)>, nq: Seq<(usize, u64)>, i: int, old_best: u64, best: u64)
    requires
        nq.len() == before.len() + 1,
        forall|k: int| 0 <= k < before.len() ==> #[trigger] nq[k] == before[k],
        best_of_runs(s, before, i, old_best),
        best == if score(s, nq[nq.len() - 1].0 as int, i) > old_best { score(s, nq[nq.len() - 1].0 as int, i) } else { old_best as nat },
    ensures
        best_of_runs(s, nq, i, best),
{
    reveal(best_of_runs);
    let last = nq.len() - 1;
    assert forall|k: int| 0 <= k < nq.len() implies score(s, (#[trigger] nq[k]).0 as int, i) <= best by {
        if k < last {
            assert(nq[k] == before[k]);
        }
    }
    if score(s, nq[last].0 as int, i) <= old_best && before.len() > 0 {
        let k = choose|k: int| 0 <= k < before.len() && score(s, (#[trigger] before[k]).0 as int, i) == old_best;
        assert(nq[k] == before[k]);
    }
}

/// A pending run whose merged gcd equals the last new run's is stood for by that run.
proof fn lemma_skip_run(q: Seq<(usize, u64)>, nq: Seq<(usize, u64)>, cur: u64, j: int)
    requires
        0 < j < q.len(),
        q[j - 1].0 < q[j].0,
        nq.len() > 0,
        nq[nq.len() - 1].1 == spec_gcd(q[j].1 as nat, cur as nat),
        merged_upto(q, nq, j, cur),
        starts_at_most(nq, q[j - 1].0 as int),
    ensures
        merged_upto(q, nq, j + 1, cur),
        starts_at_most(nq, q[j].0 as int),
{
    reveal(merged_upto);
    reveal(starts_at_most);
    let last = nq.len() - 1;
    assert(nq[last].0 <= q[j - 1].0);
    assert forall|m: int| 0 <= m < j + 1 implies #[trigger] merged_one(q, nq, m, cur) by {
        if m == j {
            assert(nq[last].0 <= q[m].0);
        }
    }
}

/// Once every pending run is merged, the new runs cover the ranges that end at `i`, and the
/// best of them is the best score of those ranges.
proof fn lemma_runs_done(s: Seq<u64>, q: Seq<(usize, u64)>, nq: Seq<(usize, u64)>, i: int, cur: u64, best: u64)
    requires
        0 <= i,
        pending_runs(s, q, i, cur),
        runs_end_at(s, nq, i),
        merged_upto(q, nq, q.len() as int, cur),
        best_of_runs(s, nq, i, best),
        nq.len() > 0,
    ensures
        runs_cover(s, nq, i),
        forall|l: int| 0 <= l <= i ==> #[trigger] score(s, l, i) <= best,
        exists|l: int| 0 <= l <= i && #[trigger] score(s, l, i) == best,
{
    assert forall|l: int| 0 <= l <= i implies #[trigger] run_covers(s, nq, l, i) by {
        lemma_covered(s, q, nq, i, cur, l);
    }
    assert(runs_cover(s, nq, i)) by {
        reveal(runs_cover);
    }
    assert forall|l: int| 0 <= l <= i implies #[trigger] score(s, l, i) <= best by {
        lemma_covered(s, q, nq, i, cur, l);
        assert(run_covers(s, nq, l, i));
        let k = choose|k: int| 0 <= k < nq.len() && (#[trigger] nq[k]).0 <= l && nq[k].1 == range_gcd(s, l, i);
        lemma_run_score(s, nq, i, k, best);
        assert(nq[k].1 == range_gcd(s, nq[k].0 as int, i)) by {
            reveal(runs_end_at);
        }
        lemma_score_le(s, nq[k].0 as int, l, i);
    }
    assert(exists|k: int| 0 <= k < nq.len() && score(s, (#[trigger] nq[k]).0 as int, i) == best) by {
        reveal(best_of_runs);
    }
    let k = choose|k: int| 0 <= k < nq.len() && score(s, (#[trigger] nq[k]).0 as int, i) == best;
    assert(nq[k].0 <= i) by {
        reveal(runs_end_at);
    }
    assert(score(s, nq[k].0 as int, i) == best);
}

/// The score of a run is at most the best.
proof fn lemma_run_score(s: Seq<u64>, nq: Seq<(usize, u64)>, i: int, k: int, best: u64)
    requires
        0 <= k < nq.len(),
        best_of_runs(s, nq, i, best),
    ensures
        score(s, nq[k].0 as int, i) <= best,
{
    reveal(best_of_runs);
    assert(score(s, nq[k].0 as int, i) <= best);
}

/// The range from `l` to `i` is covered by a new run.
proof fn lemma_covered(s: Seq<u64>, q: Seq<(usize, u64)>, nq: Seq<(usize, u64)>, i: int, cur: u64, l: int)
    requires
        0 <= l <= i,
        pending_runs(s, q, i, cur),
        merged_upto(q, nq, q.len() as int, cur),
    ensures
        run_covers(s, nq, l, i),
{
    assert(pending_covers(s, q, l, i, cur)) by {
        reveal(pending_runs);
    }
    let m = choose|m: int| 0 <= m < q.len() && (#[trigger] q[m]).0 <= l && spec_gcd(q[m].1 as nat, cur as nat) == range_gcd(s, l, i);
    assert(merged_one(q, nq, m, cur)) by {
        reveal(merged_upto);
    }
    let k = choose|k: int| 0 <= k < nq.len() && (#[trigger] nq[k]).0 <= q[m].0 && nq[k].1 == spec_gcd(q[m].1 as nat, cur as nat);
    assert(nq[k].0 <= l);
}

/// The runs of the ranges that end at `i`, made from the runs `que` of those that end at
/// `i - 1`, and the best score of a range that ends at `i`.
fn next_runs(values: &[u64], i: usize, que: Vec<(usize, u64)>) -> (r: (Vec<(usize, u64)>, u64))
    requires
        i < values.len(),
        values[0] != 0,
        forall|l: int, r: int| 0 <= l <= r < values.len() ==> #[trigger] score(values@, l, r) <= u64::MAX,
        i == 0 ==> que@.len() == 0,
        i > 0 ==> que@.len() > 0 && que@[0].0 == 0 && que@[0].1 != 0,
        i > 0 ==> runs_end_at(values@, que@, i - 1) && runs_cover(values@, que@, i - 1),
    ensures
        r.0@.len() > 0,
        r.0@[0].0 == 0,
        r.0@[0].1 != 0,
        runs_end_at(values@, r.0@, i as int),
        runs_cover(values@, r.0@, i as int),
        forall|l: int| 0 <= l <= i ==> #[trigger] score(values@, l, i as int) <= r.1,
        exists|l: int| 0 <= l <= i && #[trigger] score(values@, l, i as int) == r.1,
{
    let ghost s = values@;
    let cur = values[i];
    proof {
        lemma_pending(s, que@, i as int, i, cur);
    }
    let mut que = que;
    que.push((i, cur));
    let ghost q = que@;
    let mut new_que: Vec<(usize, u64)> = Vec::new();
    let mut last_gcd: u64 = 0;
    let mut round: u64 = 0;
    let mut j: usize = 0;
    proof {
        reveal(runs_end_at);
        reveal(merged_upto);
        reveal(best_of_runs);
    }
    while j < que.len()
        invariant
            s == values@,
            i < values.len(),
            cur == s[i as int],
            q == que@,
            q.len() > 0,
            q[0].0 == 0,
            spec_gcd(q[0].1 as nat, cur as nat) != 0,
            forall|l: int, r: int| 0 <= l <= r < values.len() ==> #[trigger] score(s, l, r) <= u64::MAX,
            pending_runs(s, q, i as int, cur),
            j <= q.len(),
            j == 0 ==> new_que@.len() == 0 && last_gcd == 0,
            j > 0 ==> new_que@.len() > 0 && last_gcd == new_que@[new_que@.len() - 1].1,
            j > 0 ==> starts_at_most(new_que@, q[j - 1].0 as int),
            new_que@.len() > 0 ==> new_que@[0].0 == 0 && new_que@[0].1 != 0,
            runs_end_at(s, new_que@, i as int),
            merged_upto(q, new_que@, j as int, cur),
            best_of_runs(s, new_que@, i as int, round),
        decreases q.len() - j,
    {
        let (start, g_old) = que[j];
        let cur_gcd = gcd(g_old, cur);
        proof {
            assert(q[j as int] == (start, g_old));
            reveal(pending_runs);
            assert(cur_gcd == range_gcd(s, start as int, i as int));
        }
        let ghost before = new_que@;
        if cur_gcd != last_gcd {
            last_gcd = cur_gcd;
            proof {
                assert(score(s, start as int, i as int) <= u64::MAX);
            }
            let candidate = (i + 1 - start) as u64 * cur_gcd;
            new_que.push((start, cur_gcd));
            let ghost old_round = round;
            if candidate > round {
                round = candidate;
            }
            proof {
                lemma_record_run(s, q, before, i as int, cur, j as int, old_round, round);
                assert(new_que@ == before.push((q[j as int].0, spec_gcd(q[j as int].1 as nat, cur as nat) as u64)));
                if j == 0 {
                    assert(new_que@[0] == (start, cur_gcd));
                } else {
                    assert(new_que@[0] == before[0]);
                }
            }
        } else {
            proof {
                if j == 0 {
                    assert(cur_gcd == spec_gcd(q[0].1 as nat, cur as nat));
                }
                reveal(pending_runs);
                assert(q[j - 1].0 < q[j as int].0);
                lemma_skip_run(q, new_que@, cur, j as int);
            }
        }
        j += 1;
    }
    proof {
        lemma_runs_done(s, q, new_que@, i as int, cur, round);
    }
    (new_que, round)
}

/// The largest length times gcd over the non-empty ranges of `values`; zero for no values.
pub fn max_gcd_length_product(values: &[u64]) -> (best: u64)
    requires
        values.len() == 0 || values[0] != 0,
        forall|l: int, r: int| 0 <= l <= r < values.len() ==> #[trigger] score(values@, l, r) <= u64::MAX,
    ensures
        forall|l: int, r: int| 0 <= l <= r < values.len() ==> #[trigger] score(values@, l, r) <= best,
        values.len() > 0 ==> exists|l: int, r: int| 0 <= l <= r < values.len() && #[trigger] score(values@, l, r) == best,
        values.len() == 0 ==> best == 0,
{
    let ghost s = values@;
    let n = values.len();
    let mut ans: u64 = 0;
    let mut que: Vec<(usize, u64)> = Vec::new();
    let mut i: usize = 0;
    while i < n
        invariant
            n == values.len(),
            s == values@,
            i <= n,
            n == 0 || s[0] != 0,
            forall|l: int, r: int| 0 <= l <= r < n ==> #[trigger] score(s, l, r) <= u64::MAX,
            forall|l: int, r: int| 0 <= l <= r < i ==> #[trigger] score(s, l, r) <= ans,
            i > 0 ==> exists|l: int, r: int| 0 <= l <= r < i && #[trigger] score(s, l, r) == ans,
            i == 0 ==> ans == 0,
            i == 0 ==> que@.len() == 0,
            i > 0 ==> que@.len() > 0 && que@[0].0 == 0 && que@[0].1 != 0,
            i > 0 ==> runs_end_at(s, que@, i - 1) && runs_cover(s, que@, i - 1),
        decreases n - i,
    {
        let (next, round) = next_runs(values, i, que);
        proof {
            if round > ans {
                let l = choose|l: int| 0 <= l <= i && #[trigger] score(s, l, i as int) == round;
                assert(score(s, l, i as int) == round);
            }
        }
        if round > ans {
            ans = round;
        }
        que = next;
        i += 1;
    }
    ans
}

} // verus!
