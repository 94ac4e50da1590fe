//! Positive EigenTrust: pre-processing of the trust graph, normalisation, the
//! iteration operator, the solver and the one-step verifier.
//!
//! Peers are dense indices `0..count`. A trust matrix holds one slot per peer
//! (`None` where the peer declares no outbound trust) and a seed vector one
//! optional value per peer. Score vectors hold one value per peer.
use vstd::prelude::*;
use crate::single::{
    abs, abs_spec, add_of, div_of, divide, is_zero_spec, le, le_spec, lt, lt_spec, mul_of, plus,
    times, ZERO,
};
use crate::merkle::{merkle_root, score_leaves};
use crate::single::{is_positive, is_positive_spec, is_zero, ONE};
use crate::trust::{
    has_key, present_entries, scaled, sum_entries, sum_present, without_key, OutboundLocalTrust,
};

verus! {

/// The trust weight given to the seed vector in each iteration: one half.
pub const PRE_TRUST_WEIGHT: u32 = 0x3F00_0000;

/// The weight given to the propagated scores in each iteration, one minus
/// `PRE_TRUST_WEIGHT`: one half.
pub const PROPAGATED_WEIGHT: u32 = 0x3F00_0000;

/// The convergence threshold: the binary32 value nearest to one hundredth.
pub const DELTA: u32 = 0x3C23_D70A;

/// A row as the contracts see it: its entries in increasing key order, and
/// its maintained sum.
pub type RowView = (Seq<(u64, u32)>, u32);

/// The view of an optional row.
pub open spec fn row_view(r: Option<OutboundLocalTrust>) -> Option<RowView> {
    match r {
        Some(r) => Some(r@),
        None => None,
    }
}

/// The views of the rows of a trust matrix.
pub open spec fn rows_view(lt: Seq<Option<OutboundLocalTrust>>) -> Seq<Option<RowView>> {
    Seq::new(lt.len(), |i: int| row_view(lt[i]))
}

/// Every present row is well formed and points at peers below `n`.
pub open spec fn rows_ok(lt: Seq<Option<OutboundLocalTrust>>, n: nat) -> bool {
    forall|i: int|
        0 <= i < lt.len() && lt[i] is Some ==> {
            &&& (#[trigger] lt[i])->0.wf()
            &&& forall|x: int|
                0 <= x < lt[i]->0@.0.len() ==> lt[i]->0@.0[x].0 < n
        }
}

/// Every present row of the views points at peers below `n`.
pub open spec fn views_in_range(m: Seq<Option<RowView>>, n: nat) -> bool {
    forall|i: int|
        0 <= i < m.len() && m[i] is Some ==> forall|x: int|
            0 <= x < (#[trigger] m[i]).unwrap().0.len() ==> m[i].unwrap().0[x].0 < n
}

/// Sum of the values of a score vector, accumulated in index order from zero.
pub open spec fn sum_scores(s: Seq<u32>) -> u32
    decreases s.len(),
{
    if s.len() == 0 {
        ZERO
    } else {
        add_of(sum_scores(s.drop_last()), s.last())
    }
}

/// Each score divided by the sum of all of them.
pub open spec fn normalized(s: Seq<u32>) -> Seq<u32> {
    Seq::new(s.len(), |i: int| div_of(s[i], sum_scores(s)))
}

/// A row scaled to sum one, or emptied where its sum is zero.
pub open spec fn norm_view(r: RowView) -> RowView {
    if is_zero_spec(r.1) {
        (Seq::empty(), ZERO)
    } else {
        (scaled(r.0, r.1), sum_entries(scaled(r.0, r.1)))
    }
}

/// Every present row normalised.
pub open spec fn normalized_rows(m: Seq<Option<RowView>>) -> Seq<Option<RowView>> {
    Seq::new(
        m.len(),
        |i: int|
            match m[i] {
                Some(r) => Some(norm_view(r)),
                None => None,
            },
    )
}

/// A seed vector normalised to sum one, as a dense vector with zero for the
/// absent entries.
pub open spec fn normalized_seed(seed: Seq<Option<u32>>) -> Seq<u32> {
    Seq::new(
        seed.len(),
        |i: int|
            match seed[i] {
                Some(v) => div_of(v, crate::trust::sum_present(seed)),
                None => ZERO,
            },
    )
}

/// Pushes the score `w` of one peer along the entries of its row, in order,
/// into the accumulator.
pub open spec fn push_row(acc: Seq<u32>, e: Seq<(u64, u32)>, w: u32) -> Seq<u32>
    decreases e.len(),
{
    if e.len() == 0 {
        acc
    } else {
        let a = push_row(acc, e.drop_last(), w);
        let j = e.last().0 as int;
        a.update(j, add_of(a[j], mul_of(e.last().1, w)))
    }
}

/// The accumulator after pushing the rows below `k`, in index order, from
/// all zeros.
pub open spec fn push_rows(m: Seq<Option<RowView>>, s: Seq<u32>, k: nat) -> Seq<u32>
    decreases k,
{
    if k == 0 {
        Seq::new(s.len(), |j: int| ZERO)
    } else {
        let a = push_rows(m, s, (k - 1) as nat);
        match m[k - 1] {
            Some(r) => push_row(a, r.0, s[k - 1]),
            None => a,
        }
    }
}

/// One application of the operator:
/// `s'[j] = PRE_TRUST_WEIGHT * seed[j] + (sum over i of LT[i][j] * s[i]) * PROPAGATED_WEIGHT`.
pub open spec fn iterate(m: Seq<Option<RowView>>, seed: Seq<u32>, s: Seq<u32>) -> Seq<u32> {
    let acc = push_rows(m, s, m.len());
    Seq::new(
        s.len(),
        |j: int| add_of(mul_of(PRE_TRUST_WEIGHT, seed[j]), mul_of(acc[j], PROPAGATED_WEIGHT)),
    )
}

/// The value at `i`, zero past the end.
pub open spec fn at_or_zero(s: Seq<u32>, i: int) -> u32 {
    if 0 <= i < s.len() {
        s[i]
    } else {
        ZERO
    }
}

/// The larger of two lengths: the indices held by either of two vectors.
pub open spec fn either_len(a: nat, b: nat) -> nat {
    if a < b {
        b
    } else {
        a
    }
}

/// Whether `|next[i] - s[i]| < DELTA` at index `i`, a missing value on
/// either side counting as zero.
pub open spec fn converged_at(s: Seq<u32>, next: Seq<u32>, i: int) -> bool {
    lt_spec(abs_spec(crate::single::sub_of(at_or_zero(next, i), at_or_zero(s, i))), DELTA)
}

/// The solver's test: at every index of either vector, the score moved by
/// strictly less than `DELTA`.
pub open spec fn converged(s: Seq<u32>, next: Seq<u32>) -> bool {
    forall|i: int| 0 <= i < either_len(s.len(), next.len()) ==> converged_at(s, next, i)
}

/// Number of indices below `k` that have not converged.
pub open spec fn unconverged_count(s: Seq<u32>, next: Seq<u32>, k: int) -> nat
    decreases k,
{
    if k <= 0 {
        0
    } else {
        unconverged_count(s, next, k - 1) + if converged_at(s, next, k - 1) {
            0nat
        } else {
            1nat
        }
    }
}

/// The submitted value at `i`, zero where none is submitted.
pub open spec fn submitted_or_zero(scores: Seq<Option<u32>>, i: int) -> u32 {
    if 0 <= i < scores.len() {
        match scores[i] {
            Some(v) => v,
            None => ZERO,
        }
    } else {
        ZERO
    }
}

/// Whether `|next[i] - v| <= DELTA` for the submitted score `v` at index
/// `i`, a missing value on either side counting as zero.
pub open spec fn accepted_at(scores: Seq<Option<u32>>, next: Seq<u32>, i: int) -> bool {
    le_spec(abs_spec(crate::single::sub_of(at_or_zero(next, i), submitted_or_zero(scores, i))), DELTA)
}

/// The verifier's test: at every index of either vector, the submitted
/// score lies within `DELTA` of the next iterate, bounds included.
pub open spec fn accepted(scores: Seq<Option<u32>>, next: Seq<u32>) -> bool {
    forall|i: int| 0 <= i < either_len(scores.len(), next.len()) ==> accepted_at(scores, next, i)
}

/// Number of indices below `k` where the submitted score is not accepted.
pub open spec fn rejected_count(scores: Seq<Option<u32>>, next: Seq<u32>, k: int) -> nat
    decreases k,
{
    if k <= 0 {
        0
    } else {
        rejected_count(scores, next, k - 1) + if accepted_at(scores, next, k - 1) {
            0nat
        } else {
            1nat
        }
    }
}

proof fn lemma_push_row_len(acc: Seq<u32>, e: Seq<(u64, u32)>, w: u32)
    requires
        forall|x: int| 0 <= x < e.len() ==> e[x].0 < acc.len(),
    ensures
        push_row(acc, e, w).len() == acc.len(),
    decreases e.len(),
{
    if e.len() > 0 {
        lemma_push_row_len(acc, e.drop_last(), w);
    }
}

proof fn lemma_push_rows_len(m: Seq<Option<RowView>>, s: Seq<u32>, k: nat)
    requires
        k <= m.len(),
        views_in_range(m, s.len()),
    ensures
        push_rows(m, s, k).len() == s.len(),
    decreases k,
{
    if k > 0 {
        lemma_push_rows_len(m, s, (k - 1) as nat);
        match m[k - 1] {
            Some(r) => lemma_push_row_len(push_rows(m, s, (k - 1) as nat), r.0, s[k - 1]),
            None => {},
        }
    }
}

/// Divides every score by the sum of all of them.
pub fn normalise_scores(scores: &Vec<u32>) -> (r: Vec<u32>)
    ensures
        r@ == normalized(scores@),
{
    let n = scores.len();
    let mut sum: u32 = ZERO;
    let mut i: usize = 0;
    while i < n
        invariant
            n == scores@.len(),
            i <= n,
            sum == sum_scores(scores@.take(i as int)),
        decreases n - i,
    {
        proof {
            assert(scores@.take(i + 1).drop_last() == scores@.take(i as int));
        }
        sum = plus(sum, scores[i]);
        i = i + 1;
    }
    proof {
        assert(scores@.take(n as int) == scores@);
    }
    let mut r: Vec<u32> = Vec::new();
    let mut i: usize = 0;
    while i < n
        invariant
            n == scores@.len(),
            i <= n,
            sum == sum_scores(scores@),
            r@ == normalized(scores@).take(i as int),
        decreases n - i,
    {
        r.push(divide(scores[i], sum));
        proof {
            assert(r@ == normalized(scores@).take(i + 1));
        }
        i = i + 1;
    }
    proof {
        assert(normalized(scores@).take(n as int) == normalized(scores@));
    }
    r
}

/// Divides every present seed value by the sum of the present values, and
/// gives the absent ones the value zero.
pub fn normalise_seed(seed: &Vec<Option<u32>>) -> (r: Vec<u32>)
    ensures
        r@ == normalized_seed(seed@),
{
    let total = OutboundLocalTrust::from_score_map(seed).outbound_sum();
    let n = seed.len();
    let mut r: Vec<u32> = Vec::new();
    let mut i: usize = 0;
    while i < n
        invariant
            n == seed@.len(),
            i <= n,
            total == crate::trust::sum_present(seed@),
            r@ == normalized_seed(seed@).take(i as int),
        decreases n - i,
    {
        let v = match seed[i] {
            Some(v) => divide(v, total),
            None => ZERO,
        };
        r.push(v);
        proof {
            assert(r@ == normalized_seed(seed@).take(i + 1));
        }
        i = i + 1;
    }
    proof {
        assert(normalized_seed(seed@).take(n as int) == normalized_seed(seed@));
    }
    r
}

/// Normalises every present row.
pub fn normalise_lt(lt: &Vec<Option<OutboundLocalTrust>>) -> (r: Vec<Option<OutboundLocalTrust>>)
    requires
        rows_ok(lt@, lt@.len()),
    ensures
        r@.len() == lt@.len(),
        rows_view(r@) == normalized_rows(rows_view(lt@)),
        rows_ok(r@, lt@.len()),
{
    let n = lt.len();
    let mut r: Vec<Option<OutboundLocalTrust>> = Vec::new();
    let mut i: usize = 0;
    while i < n
        invariant
            n == lt@.len(),
            i <= n,
            rows_ok(lt@, n as nat),
            r@.len() == i,
            rows_ok(r@, n as nat),
            forall|k: int| 0 <= k < i ==> row_view(#[trigger] r@[k]) == normalized_rows(rows_view(lt@))[k],
        decreases n - i,
    {
        let row = match &lt[i] {
            Some(row) => {
                let nr = row.norm();
                proof {
                    assert(lt@[i as int] is Some);
                    row.lemma_wf();
                    nr.lemma_wf();
                    assert(nr@ == norm_view(row@));
                    assert(rows_view(lt@)[i as int] == Some(row@));
                    assert(normalized_rows(rows_view(lt@))[i as int] == Some(nr@));
                }
                Some(nr)
            },
            None => {
                proof {
                    assert(rows_view(lt@)[i as int] is None);
                }
                None
            },
        };
        let ghost pushed = row;
        r.push(row);
        proof {
            assert(r@[i as int] == pushed);
            assert(rows_view(r@)[i as int] == normalized_rows(rows_view(lt@))[i as int]);
            assert forall|k: int| 0 <= k < r@.len() && r@[k] is Some implies {
                &&& (#[trigger] r@[k])->0.wf()
                &&& forall|x: int| 0 <= x < r@[k]->0@.0.len() ==> r@[k]->0@.0[x].0 < n
            } by {
                if k < i {
                    assert(r@[k] == r@.drop_last()[k]);
                }
            }
        }
        i = i + 1;
    }
    proof {
        assert(rows_view(r@) == normalized_rows(rows_view(lt@)));
    }
    r
}

proof fn lemma_rows_ok_in_range(lt: Seq<Option<OutboundLocalTrust>>, n: nat)
    requires
        rows_ok(lt, n),
    ensures
        views_in_range(rows_view(lt), n),
{
    assert forall|i: int| 0 <= i < rows_view(lt).len() && rows_view(lt)[i] is Some implies forall|
        x: int,
    |
        0 <= x < (#[trigger] rows_view(lt)[i]).unwrap().0.len() ==> rows_view(lt)[i].unwrap().0[x].0
            < n by {
        assert(lt[i] is Some);
    }
}

/// One application of the operator to `scores`: every row pushes its peer's
/// score along its weights into an accumulator, in increasing order of the
/// row and then of the entry; then each peer's accumulated score is mixed
/// with its seed value.
pub fn iteration(lt: &Vec<Option<OutboundLocalTrust>>, seed: &Vec<u32>, scores: &Vec<u32>) -> (r: Vec<u32>)
    requires
        seed@.len() == lt@.len(),
        scores@.len() == lt@.len(),
        rows_ok(lt@, lt@.len()),
    ensures
        r@ == iterate(rows_view(lt@), seed@, scores@),
{
    let n = lt.len();
    let ghost m = rows_view(lt@);
    proof {
        lemma_rows_ok_in_range(lt@, n as nat);
    }
    let mut acc: Vec<u32> = Vec::new();
    let mut j: usize = 0;
    while j < n
        invariant
            j <= n,
            acc@ == Seq::new(j as nat, |k: int| ZERO),
        decreases n - j,
    {
        acc.push(ZERO);
        j = j + 1;
    }
    proof {
        assert(acc@ == push_rows(m, scores@, 0));
    }
    let mut i: usize = 0;
    while i < n
        invariant
            n == lt@.len(),
            n == scores@.len(),
            m == rows_view(lt@),
            views_in_range(m, n as nat),
            rows_ok(lt@, n as nat),
            i <= n,
            acc@ == push_rows(m, scores@, i as nat),
        decreases n - i,
    {
        proof {
            lemma_push_rows_len(m, scores@, i as nat);
        }
        match &lt[i] {
            Some(row) => {
                let e = row.outbound_trust_scores();
                let w = scores[i];
                let ghost a0 = acc@;
                proof {
                    assert(lt@[i as int] is Some);
                    assert(m[i as int] == Some(row@));
                }
                let len = e.len();
                let mut x: usize = 0;
                while x < len
                    invariant
                        len == e@.len(),
                        e@ == row@.0,
                        a0.len() == n,
                        forall|y: int| 0 <= y < e@.len() ==> e@[y].0 < n,
                        x <= len,
                        acc@ == push_row(a0, e@.take(x as int), w),
                    decreases len - x,
                {
                    let (to, v) = e[x];
                    proof {
                        assert(e@.take(x + 1).drop_last() == e@.take(x as int));
                        assert(e@.take(x + 1).last() == (to, v));
                        lemma_push_row_len(a0, e@.take(x as int), w);
                    }
                    let t = to as usize;
                    let updated = plus(acc[t], times(v, w));
                    acc.set(t, updated);
                    x = x + 1;
                }
                proof {
                    assert(e@.take(len as int) == e@);
                }
            },
            None => {
                proof {
                    assert(m[i as int] is None);
                }
            },
        }
        i = i + 1;
    }
    proof {
        lemma_push_rows_len(m, scores@, n as nat);
    }
    let mut r: Vec<u32> = Vec::new();
    let mut j: usize = 0;
    while j < n
        invariant
            n == scores@.len(),
            n == seed@.len(),
            n == lt@.len(),
            m == rows_view(lt@),
            acc@ == push_rows(m, scores@, n as nat),
            acc@.len() == n,
            j <= n,
            r@ == iterate(m, seed@, scores@).take(j as int),
        decreases n - j,
    {
        r.push(plus(times(PRE_TRUST_WEIGHT, seed[j]), times(acc[j], PROPAGATED_WEIGHT)));
        proof {
            assert(r@ == iterate(m, seed@, scores@).take(j + 1));
        }
        j = j + 1;
    }
    proof {
        assert(iterate(m, seed@, scores@).take(n as int) == iterate(m, seed@, scores@));
    }
    r
}

/// The solver's convergence test between two consecutive iterates: whether
/// at every index of either vector the score moved by strictly less than
/// `DELTA` (a missing score counts as zero), and how many did not
/// (saturating).
pub fn is_converged(scores: &Vec<u32>, next_scores: &Vec<u32>) -> (r: (bool, u32))
    ensures
        r.0 == converged(scores@, next_scores@),
        r.1 as nat == if unconverged_count(
            scores@,
            next_scores@,
            either_len(scores@.len(), next_scores@.len()) as int,
        ) < u32::MAX {
            unconverged_count(scores@, next_scores@, either_len(scores@.len(), next_scores@.len()) as int)
        } else {
            u32::MAX as nat
        },
{
    let n = if scores.len() < next_scores.len() {
        next_scores.len()
    } else {
        scores.len()
    };
    let mut all = true;
    let mut count: u32 = 0;
    let mut i: usize = 0;
    while i < n
        invariant
            n == either_len(scores@.len(), next_scores@.len()),
            i <= n,
            all == forall|k: int| 0 <= k < i ==> converged_at(scores@, next_scores@, k),
            count as nat == if unconverged_count(scores@, next_scores@, i as int) < u32::MAX {
                unconverged_count(scores@, next_scores@, i as int)
            } else {
                u32::MAX as nat
            },
        decreases n - i,
    {
        let next = if i < next_scores.len() {
            next_scores[i]
        } else {
            ZERO
        };
        let current = if i < scores.len() {
            scores[i]
        } else {
            ZERO
        };
        let ok = lt(abs(crate::single::minus(next, current)), DELTA);
        if !ok {
            all = false;
            if count < u32::MAX {
                count = count + 1;
            }
        }
        proof {
            assert(ok == converged_at(scores@, next_scores@, i as int));
        }
        i = i + 1;
    }
    (all, count)
}

/// The verifier's test between submitted scores and the next iterate:
/// whether at every index of either vector the submitted score lies within
/// `DELTA` of the next one, bounds included (a missing score on either side
/// counts as zero), and how many did not (saturating).
pub fn is_converged_verifier(scores: &Vec<Option<u32>>, next_scores: &Vec<u32>) -> (r: (bool, u32))
    ensures
        r.0 == accepted(scores@, next_scores@),
        r.1 as nat == if rejected_count(
            scores@,
            next_scores@,
            either_len(scores@.len(), next_scores@.len()) as int,
        ) < u32::MAX {
            rejected_count(scores@, next_scores@, either_len(scores@.len(), next_scores@.len()) as int)
        } else {
            u32::MAX as nat
        },
{
    let n = if scores.len() < next_scores.len() {
        next_scores.len()
    } else {
        scores.len()
    };
    let mut all = true;
    let mut count: u32 = 0;
    let mut i: usize = 0;
    while i < n
        invariant
            n == either_len(scores@.len(), next_scores@.len()),
            i <= n,
            all == forall|k: int| 0 <= k < i ==> accepted_at(scores@, next_scores@, k),
            count as nat == if rejected_count(scores@, next_scores@, i as int) < u32::MAX {
                rejected_count(scores@, next_scores@, i as int)
            } else {
                u32::MAX as nat
            },
        decreases n - i,
    {
        let next = if i < next_scores.len() {
            next_scores[i]
        } else {
            ZERO
        };
        let submitted = if i < scores.len() {
            match scores[i] {
                Some(v) => v,
                None => ZERO,
            }
        } else {
            ZERO
        };
        let ok = le(abs(crate::single::minus(next, submitted)), DELTA);
        if !ok {
            all = false;
            if count < u32::MAX {
                count = count + 1;
            }
        }
        proof {
            assert(ok == accepted_at(scores@, next_scores@, i as int));
        }
        i = i + 1;
    }
    (all, count)
}

/// A positive-weight edge from `i` to `j`.
pub open spec fn edge(m: Seq<Option<RowView>>, i: int, j: int) -> bool {
    &&& 0 <= i < m.len()
    &&& m[i] is Some
    &&& exists|x: int|
        0 <= x < m[i].unwrap().0.len() && m[i].unwrap().0[x].0 == j && is_positive_spec(
            m[i].unwrap().0[x].1,
        )
}

/// `j` carries positive seed trust.
pub open spec fn in_support(seed: Seq<Option<u32>>, j: int) -> bool {
    &&& 0 <= j < seed.len()
    &&& seed[j] is Some
    &&& is_positive_spec(seed[j].unwrap())
}

/// `j` is reached from the support of the seed in at most `k` edges.
pub open spec fn reach_within(m: Seq<Option<RowView>>, seed: Seq<Option<u32>>, j: int, k: nat) -> bool
    decreases k,
{
    if k == 0 {
        in_support(seed, j)
    } else {
        reach_within(m, seed, j, (k - 1) as nat) || exists|i: int|
            reach_within(m, seed, i, (k - 1) as nat) && #[trigger] edge(m, i, j)
    }
}

/// `j` is reachable from the support of the seed along positive-weight edges.
pub open spec fn reachable(m: Seq<Option<RowView>>, seed: Seq<Option<u32>>, j: int) -> bool {
    exists|k: nat| reach_within(m, seed, j, k)
}

proof fn lemma_closed_set_contains_reachable(
    m: Seq<Option<RowView>>,
    seed: Seq<Option<u32>>,
    vis: Seq<bool>,
    j: int,
    k: nat,
)
    requires
        forall|i: int| in_support(seed, i) ==> 0 <= i < vis.len() && vis[i],
        forall|i: int, t: int|
            0 <= i < vis.len() && vis[i] && #[trigger] edge(m, i, t) ==> 0 <= t < vis.len()
                && vis[t],
        reach_within(m, seed, j, k),
    ensures
        0 <= j < vis.len() && vis[j],
    decreases k,
{
    if k > 0 {
        if reach_within(m, seed, j, (k - 1) as nat) {
            lemma_closed_set_contains_reachable(m, seed, vis, j, (k - 1) as nat);
        } else {
            let i = choose|i: int| reach_within(m, seed, i, (k - 1) as nat) && #[trigger] edge(m, i, j);
            lemma_closed_set_contains_reachable(m, seed, vis, i, (k - 1) as nat);
        }
    }
}

/// `j` is held somewhere in the stack.
spec fn on_stack(st: Seq<u64>, j: int) -> bool {
    exists|k: int| 0 <= k < st.len() && st[k] as int == j
}

proof fn lemma_on_stack_prefix(base: Seq<u64>, st: Seq<u64>)
    requires
        base.len() <= st.len(),
        forall|k: int| 0 <= k < base.len() ==> st[k] == base[k],
    ensures
        forall|j: int| on_stack(base, j) ==> #[trigger] on_stack(st, j),
{
    assert forall|j: int| on_stack(base, j) implies #[trigger] on_stack(st, j) by {
        let k = choose|k: int| 0 <= k < base.len() && base[k] as int == j;
        assert(st[k] == base[k]);
    }
}

proof fn lemma_on_stack_pop(before: Seq<u64>, after: Seq<u64>, top: u64)
    requires
        before == after.push(top),
    ensures
        forall|j: int| on_stack(before, j) && j != top as int ==> #[trigger] on_stack(after, j),
        forall|j: int| on_stack(after, j) ==> #[trigger] on_stack(before, j),
{
    assert forall|j: int| on_stack(before, j) && j != top as int implies #[trigger] on_stack(after, j) by {
        let k = choose|k: int| 0 <= k < before.len() && before[k] as int == j;
        assert(k < after.len());
        assert(after[k] == before[k]);
    }
    lemma_on_stack_prefix(after, before);
}

/// Marks every peer reachable from the support of the seed (its positive
/// entries) along positive-weight edges, by a depth-first search.
pub fn find_reachable_peers(lt: &Vec<Option<OutboundLocalTrust>>, seed: &Vec<Option<u32>>) -> (r: Vec<bool>)
    requires
        seed@.len() == lt@.len(),
        rows_ok(lt@, lt@.len()),
    ensures
        r@.len() == lt@.len(),
        forall|j: int| 0 <= j < lt@.len() ==> r@[j] == reachable(rows_view(lt@), seed@, j),
{
    let n = lt.len();
    let ghost m = rows_view(lt@);
    let mut visited: Vec<bool> = Vec::new();
    let mut stack: Vec<u64> = Vec::new();
    let mut i: usize = 0;
    while i < n
        invariant
            n == seed@.len(),
            i <= n,
            visited@ == Seq::new(i as nat, |k: int| false),
            forall|k: int| 0 <= k < stack@.len() ==> stack@[k] < i,
            forall|k: int| 0 <= k < stack@.len() ==> in_support(seed@, stack@[k] as int),
            forall|j: int| 0 <= j < i && in_support(seed@, j) ==> on_stack(stack@, j),
        decreases n - i,
    {
        let ghost before = stack@;
        match seed[i] {
            Some(v) => {
                if is_positive(v) {
                    stack.push(i as u64);
                    proof {
                        assert(stack@[stack@.len() - 1] == i as u64);
                        lemma_on_stack_prefix(before, stack@);
                    }
                }
            },
            None => {},
        }
        visited.push(false);
        i = i + 1;
    }
    let ghost mut unvisited: Set<int> = vstd::set_lib::set_int_range(0, n as int);
    proof {
        vstd::set_lib::lemma_int_range(0, n as int);
        assert forall|k: int| 0 <= k < stack@.len() implies reachable(m, seed@, stack@[k] as int) by {
            assert(reach_within(m, seed@, stack@[k] as int, 0));
        }
    }
    while stack.len() > 0
        invariant
            n == lt@.len(),
            n == seed@.len(),
            m == rows_view(lt@),
            rows_ok(lt@, n as nat),
            visited@.len() == n,
            forall|k: int| 0 <= k < stack@.len() ==> stack@[k] < n,
            forall|j: int| 0 <= j < n && visited@[j] ==> reachable(m, seed@, j),
            forall|k: int| 0 <= k < stack@.len() ==> reachable(m, seed@, stack@[k] as int),
            forall|j: int| in_support(seed@, j) ==> visited@[j] || on_stack(stack@, j),
            forall|i: int, j: int|
                0 <= i < n && visited@[i] && #[trigger] edge(m, i, j) ==> 0 <= j < n && (
                visited@[j] || on_stack(stack@, j)),
            unvisited.finite(),
            forall|j: int| unvisited.contains(j) <==> 0 <= j < n && !visited@[j],
        decreases unvisited.len(), stack.len(),
    {
        let ghost before = stack@;
        let top = stack.pop().unwrap();
        let p = top as usize;
        proof {
            assert(before =~= stack@.push(top));
            lemma_on_stack_pop(before, stack@, top);
            assert forall|k: int| 0 <= k < stack@.len() implies reachable(m, seed@, stack@[k] as int) by {
                assert(stack@[k] == before[k]);
            }
            assert(reachable(m, seed@, p as int)) by {
                assert(before[before.len() - 1] == top);
            }
        }
        let ghost vis0 = visited@;
        if !visited[p] {
            visited.set(p, true);
            proof {
                unvisited = unvisited.remove(p as int);
            }
            match &lt[p] {
                Some(row) => {
                    let e = row.outbound_trust_scores();
                    let ghost base = stack@;
                    proof {
                        assert(lt@[p as int] is Some);
                        assert(m[p as int] == Some(row@));
                    }
                    let len = e.len();
                    let mut x: usize = 0;
                    while x < len
                        invariant
                            n == lt@.len(),
                            m == rows_view(lt@),
                            m[p as int] == Some(row@),
                            p < n,
                            len == e@.len(),
                            e@ == row@.0,
                            forall|y: int| 0 <= y < e@.len() ==> e@[y].0 < n,
                            visited@.len() == n,
                            x <= len,
                            stack@.len() >= base.len(),
                            forall|k: int| 0 <= k < base.len() ==> stack@[k] == base[k],
                            forall|k: int| 0 <= k < stack@.len() ==> stack@[k] < n,
                            forall|k: int|
                                0 <= k < stack@.len() ==> reachable(m, seed@, stack@[k] as int),
                            reachable(m, seed@, p as int),
                            forall|y: int|
                                0 <= y < x && is_positive_spec(e@[y].1) ==> visited@[e@[y].0 as int]
                                    || on_stack(stack@, e@[y].0 as int),
                        decreases len - x,
                    {
                        let (to, v) = e[x];
                        let ghost st0 = stack@;
                        if is_positive(v) && !visited[to as usize] {
                            stack.push(to);
                            proof {
                                assert(stack@[stack@.len() - 1] == to);
                                lemma_on_stack_prefix(st0, stack@);
                                assert(edge(m, p as int, to as int)) by {
                                    assert(m[p as int].unwrap().0[x as int] == (to, v));
                                }
                                let kp = choose|kp: nat| reach_within(m, seed@, p as int, kp);
                                assert(reach_within(m, seed@, to as int, kp + 1));
                            }
                        }
                        x = x + 1;
                    }
                    proof {
                        lemma_on_stack_prefix(base, stack@);
                        assert forall|j: int| #[trigger] edge(m, p as int, j) implies 0 <= j < n && (
                        visited@[j] || on_stack(stack@, j)) by {
                            let y = choose|y: int|
                                0 <= y < m[p as int].unwrap().0.len() && m[p as int].unwrap().0[y].0
                                    == j && is_positive_spec(m[p as int].unwrap().0[y].1);
                            assert(e@[y].0 == j);
                        }
                    }
                },
                None => {
                    proof {
                        assert(m[p as int] is None);
                    }
                },
            }
        }
    }
    proof {
        assert forall|j: int| 0 <= j < n implies visited@[j] == reachable(m, seed@, j) by {
            if reachable(m, seed@, j) {
                let k = choose|k: nat| reach_within(m, seed@, j, k);
                lemma_closed_set_contains_reachable(m, seed@, visited@, j, k);
            }
        }
    }
    visited
}

/// The seed, or where its values sum to zero, the value one for every peer.
pub open spec fn rescued_seed(seed: Seq<Option<u32>>) -> Seq<Option<u32>> {
    if is_zero_spec(sum_present(seed)) {
        Seq::new(seed.len(), |i: int| Some(ONE))
    } else {
        seed
    }
}

/// A row equal to the seed: its present values keyed by index, and their sum.
pub open spec fn seed_row(seed: Seq<Option<u32>>) -> RowView {
    (present_entries(seed), sum_present(seed))
}

/// Row `i` without its self-trust entry; the sum is recomputed where an
/// entry was removed.
pub open spec fn stripped(r: RowView, i: int) -> RowView {
    if has_key(r.0, i as u64) {
        (without_key(r.0, i as u64), sum_entries(without_key(r.0, i as u64)))
    } else {
        r
    }
}

/// Row `i` after self-trust removal, replaced by the seed row where it is
/// absent or its sum is zero.
pub open spec fn filled_row(r: Option<RowView>, i: int, seed: Seq<Option<u32>>) -> RowView {
    match r {
        Some(v) => if is_zero_spec(stripped(v, i).1) {
            seed_row(seed)
        } else {
            stripped(v, i)
        },
        None => seed_row(seed),
    }
}

/// The matrix after self-trust removal and dangling-row substitution.
pub open spec fn filled(m: Seq<Option<RowView>>, seed: Seq<Option<u32>>) -> Seq<Option<RowView>> {
    Seq::new(m.len(), |i: int| Some(filled_row(m[i], i, seed)))
}

/// The pre-processed matrix: the filled rows of the peers reachable from the
/// support of the (rescued) seed, and no row for the others.
pub open spec fn pre_processed_lt(m: Seq<Option<RowView>>, seed: Seq<Option<u32>>) -> Seq<Option<RowView>> {
    let s = rescued_seed(seed);
    let f = filled(m, s);
    Seq::new(m.len(), |i: int| if reachable(f, s, i) { f[i] } else { None })
}

/// Pre-processes a trust matrix and seed vector in place, in four steps:
/// a seed whose values sum to zero becomes the value one for every peer;
/// self-trust is removed from every row; every row that is absent or sums to
/// zero is replaced by a row equal to the seed; the rows of peers that are
/// not reachable from the support of the seed are removed.
pub fn pre_process(lt: &mut Vec<Option<OutboundLocalTrust>>, seed: &mut Vec<Option<u32>>, count: u64)
    requires
        old(lt)@.len() == count,
        old(seed)@.len() == count,
        rows_ok(old(lt)@, count as nat),
    ensures
        final(seed)@ == rescued_seed(old(seed)@),
        rows_view(final(lt)@) == pre_processed_lt(rows_view(old(lt)@), old(seed)@),
        rows_ok(final(lt)@, count as nat),
        final(lt)@.len() == count,
{
    let n = lt.len();
    let ghost m = rows_view(lt@);
    let ghost seed0 = seed@;
    let total = OutboundLocalTrust::from_score_map(seed).outbound_sum();
    if is_zero(total) {
        let mut uniform: Vec<Option<u32>> = Vec::new();
        let mut i: usize = 0;
        while i < n
            invariant
                i <= n,
                uniform@ == Seq::new(i as nat, |k: int| Some(ONE)),
            decreases n - i,
        {
            uniform.push(Some(ONE));
            i = i + 1;
        }
        *seed = uniform;
    }
    let ghost s = seed@;
    assert(s == rescued_seed(seed0));
    let from_seed = OutboundLocalTrust::from_score_map(seed);
    let mut full: Vec<Option<OutboundLocalTrust>> = Vec::new();
    let mut i: usize = 0;
    while i < n
        invariant
            n == lt@.len(),
            n == s.len(),
            m == rows_view(lt@),
            s == seed@,
            rows_ok(lt@, n as nat),
            from_seed.wf(),
            from_seed@ == seed_row(s),
            forall|x: int| 0 <= x < from_seed@.0.len() ==> from_seed@.0[x].0 < n,
            i <= n,
            full@.len() == i,
            rows_ok(full@, n as nat),
            forall|k: int| 0 <= k < i ==> row_view(#[trigger] full@[k]) == filled(m, s)[k],
        decreases n - i,
    {
        let row = match &lt[i] {
            Some(r) => {
                proof {
                    assert(lt@[i as int] is Some);
                    assert(m[i as int] == Some(r@));
                    r.lemma_wf();
                }
                let st = r.without(i as u64);
                proof {
                    st.lemma_wf();
                    crate::trust::lemma_without_key(r@.0, i as u64);
                    assert(st@ == stripped(r@, i as int));
                    assert forall|x: int| 0 <= x < st@.0.len() implies st@.0[x].0 < n by {
                        let y = choose|y: int| 0 <= y < r@.0.len() && r@.0[y] == #[trigger] st@.0[x];
                    }
                }
                if is_zero(st.outbound_sum()) {
                    from_seed.duplicate()
                } else {
                    st
                }
            },
            None => {
                proof {
                    assert(m[i as int] is None);
                }
                from_seed.duplicate()
            },
        };
        proof {
            row.lemma_wf();
            assert(row@ == filled_row(m[i as int], i as int, s));
        }
        full.push(Some(row));
        proof {
            assert(full@[i as int] == Some(row));
            assert forall|k: int| 0 <= k < full@.len() && full@[k] is Some implies {
                &&& (#[trigger] full@[k])->0.wf()
                &&& forall|x: int| 0 <= x < full@[k]->0@.0.len() ==> full@[k]->0@.0[x].0 < n
            } by {
                if k < i {
                    assert(full@[k] == full@.drop_last()[k]);
                }
            }
        }
        i = i + 1;
    }
    proof {
        assert(rows_view(full@) == filled(m, s));
    }
    let reach = find_reachable_peers(&full, seed);
    let mut pruned: Vec<Option<OutboundLocalTrust>> = Vec::new();
    let mut i: usize = 0;
    while i < n
        invariant
            n == full@.len(),
            n == reach@.len(),
            rows_view(full@) == filled(m, s),
            forall|j: int| 0 <= j < n ==> reach@[j] == reachable(filled(m, s), s, j),
            rows_ok(full@, n as nat),
            i <= n,
            pruned@.len() == i,
            rows_ok(pruned@, n as nat),
            forall|k: int|
                0 <= k < i ==> row_view(#[trigger] pruned@[k]) == pre_processed_lt(m, seed0)[k],
            s == rescued_seed(seed0),
            m.len() == n,
        decreases n - i,
    {
        let row = if reach[i] {
            match &full[i] {
                Some(r) => Some(r.duplicate()),
                None => None,
            }
        } else {
            None
        };
        proof {
            assert(rows_view(full@)[i as int] == row_view(full@[i as int]));
            assert(row_view(row) == pre_processed_lt(m, seed0)[i as int]);
            if row is Some {
                assert(full@[i as int] is Some);
            }
        }
        pruned.push(row);
        proof {
            assert(pruned@[i as int] == row);
            assert forall|k: int| 0 <= k < pruned@.len() && pruned@[k] is Some implies {
                &&& (#[trigger] pruned@[k])->0.wf()
                &&& forall|x: int| 0 <= x < pruned@[k]->0@.0.len() ==> pruned@[k]->0@.0[x].0 < n
            } by {
                if k < i {
                    assert(pruned@[k] == pruned@.drop_last()[k]);
                }
            }
        }
        i = i + 1;
    }
    proof {
        assert(rows_view(pruned@) == pre_processed_lt(m, seed0));
    }
    *lt = pruned;
}

/// The pre-processed matrix with every row normalised.
pub open spec fn prepared_lt(lt: Seq<Option<RowView>>, seed: Seq<Option<u32>>) -> Seq<Option<RowView>> {
    normalized_rows(pre_processed_lt(lt, seed))
}

/// The rescued seed normalised, as a dense vector.
pub open spec fn prepared_seed(seed: Seq<Option<u32>>) -> Seq<u32> {
    normalized_seed(rescued_seed(seed))
}

/// One normalised application of the operator on the prepared inputs.
pub open spec fn step(lt: Seq<Option<RowView>>, seed: Seq<Option<u32>>, s: Seq<u32>) -> Seq<u32> {
    normalized(iterate(prepared_lt(lt, seed), prepared_seed(seed), s))
}

/// The solver's scores after `k` rounds of two steps each, from the
/// normalised seed.
pub open spec fn solver_iterate(lt: Seq<Option<RowView>>, seed: Seq<Option<u32>>, k: nat) -> Seq<u32>
    decreases k,
{
    if k == 0 {
        prepared_seed(seed)
    } else {
        step(lt, seed, step(lt, seed, solver_iterate(lt, seed, (k - 1) as nat)))
    }
}

/// The first of the two iterates computed in round `k`.
pub open spec fn round_result(lt: Seq<Option<RowView>>, seed: Seq<Option<u32>>, k: nat) -> Seq<u32> {
    step(lt, seed, solver_iterate(lt, seed, k))
}

/// Round `k` ends the solver: its two iterates differ by less than `DELTA`.
pub open spec fn stops_at(lt: Seq<Option<RowView>>, seed: Seq<Option<u32>>, k: nat) -> bool {
    converged(round_result(lt, seed, k), step(lt, seed, round_result(lt, seed, k)))
}

/// Scores paired with their peer index.
pub open spec fn indexed(s: Seq<u32>) -> Seq<(u64, u32)> {
    Seq::new(s.len(), |i: int| (i as u64, s[i]))
}

/// `r` is what the solver returns: the first iterate of the first round
/// that ends it.
pub open spec fn is_solver_result(
    lt: Seq<Option<RowView>>,
    seed: Seq<Option<u32>>,
    r: Seq<(u64, u32)>,
) -> bool {
    exists|k: nat| stops_first_at(lt, seed, k, r)
}

/// Round `k`, counted in a `u64`, is the first that ends the solver, and `r`
/// is its first iterate with each peer's index.
pub open spec fn stops_first_at(
    lt: Seq<Option<RowView>>,
    seed: Seq<Option<u32>>,
    k: nat,
    r: Seq<(u64, u32)>,
) -> bool {
    &&& k <= u64::MAX
    &&& stops_at(lt, seed, k)
    &&& forall|j: nat| j < k ==> !stops_at(lt, seed, j)
    &&& r == indexed(round_result(lt, seed, k))
}

/// What the solver may return: its result, or where no round up to
/// `u64::MAX` ends it, the last iterate.
pub open spec fn solver_outcome(
    lt: Seq<Option<RowView>>,
    seed: Seq<Option<u32>>,
    r: Seq<(u64, u32)>,
) -> bool {
    ||| is_solver_result(lt, seed, r)
    ||| (forall|k: nat| k <= u64::MAX ==> !stops_at(lt, seed, k)) && r == indexed(
        solver_iterate(lt, seed, u64::MAX as nat + 1),
    )
}

/// Every outcome of the solver holds one score per peer.
pub proof fn lemma_solver_outcome_len(lt: Seq<Option<RowView>>, seed: Seq<Option<u32>>, r: Seq<(u64, u32)>)
    requires
        solver_outcome(lt, seed, r),
    ensures
        r.len() == seed.len(),
{
    if is_solver_result(lt, seed, r) {
        let k = choose|k: nat| stops_first_at(lt, seed, k, r);
        lemma_solver_iterate_len(lt, seed, k);
    } else {
        lemma_solver_iterate_len(lt, seed, u64::MAX as nat + 1);
    }
}

/// The submitted scores as a dense vector, zero where absent.
pub open spec fn dense(scores: Seq<Option<u32>>) -> Seq<u32> {
    Seq::new(
        scores.len(),
        |i: int|
            match scores[i] {
                Some(v) => v,
                None => ZERO,
            },
    )
}

/// The verifier's verdict on submitted scores.
pub open spec fn verifier_accepts(
    lt: Seq<Option<RowView>>,
    seed: Seq<Option<u32>>,
    scores: Seq<Option<u32>>,
) -> bool {
    accepted(scores, step(lt, seed, dense(scores)))
}

proof fn lemma_solver_iterate_len(lt: Seq<Option<RowView>>, seed: Seq<Option<u32>>, k: nat)
    ensures
        solver_iterate(lt, seed, k).len() == seed.len(),
    decreases k,
{
    if k > 0 {
        lemma_solver_iterate_len(lt, seed, (k - 1) as nat);
    }
}

fn pair_with_indices(s: &Vec<u32>) -> (r: Vec<(u64, u32)>)
    ensures
        r@ == indexed(s@),
{
    let n = s.len();
    let mut r: Vec<(u64, u32)> = Vec::new();
    let mut i: usize = 0;
    while i < n
        invariant
            n == s@.len(),
            i <= n,
            r@ == indexed(s@).take(i as int),
        decreases n - i,
    {
        r.push((i as u64, s[i]));
        proof {
            assert(r@ == indexed(s@).take(i + 1));
        }
        i = i + 1;
    }
    proof {
        assert(indexed(s@).take(n as int) == indexed(s@));
    }
    r
}

/// Positive EigenTrust: pre-processes and normalises the inputs, then
/// applies the normalised operator two steps at a time, from the normalised
/// seed, until the two iterates of a round differ by less than `DELTA` at
/// every peer, and returns the first of them with each peer's index.
///
/// Rounds are counted in a `u64`; should all of them pass without
/// convergence, the last iterate is returned.
pub fn positive_run(
    lt: Vec<Option<OutboundLocalTrust>>,
    seed: Vec<Option<u32>>,
    count: u64,
) -> (r: Vec<(u64, u32)>)
    requires
        lt@.len() == count,
        seed@.len() == count,
        rows_ok(lt@, count as nat),
    ensures
        solver_outcome(rows_view(lt@), seed@, r@),
{
    let ghost m = rows_view(lt@);
    let ghost seed0 = seed@;
    let mut matrix = lt;
    let mut pre_trust = seed;
    pre_process(&mut matrix, &mut pre_trust, count);
    let seed_n = normalise_seed(&pre_trust);
    let lt_n = normalise_lt(&matrix);
    let mut scores = normalise_seed(&pre_trust);
    let mut rounds: u64 = 0;
    loop
        invariant
            lt_n@.len() == count,
            seed_n@.len() == count,
            rows_ok(lt_n@, count as nat),
            rows_view(lt_n@) == prepared_lt(m, seed0),
            seed_n@ == prepared_seed(seed0),
            scores@ == solver_iterate(m, seed0, rounds as nat),
            forall|j: nat| j < rounds ==> !stops_at(m, seed0, j),
            m == rows_view(lt@),
            seed0 == seed@,
        decreases u64::MAX - rounds,
    {
        proof {
            lemma_solver_iterate_len(m, seed0, rounds as nat);
        }
        let first = normalise_scores(&iteration(&lt_n, &seed_n, &scores));
        let second = normalise_scores(&iteration(&lt_n, &seed_n, &first));
        let (done, _) = is_converged(&first, &second);
        proof {
            assert(first@ == round_result(m, seed0, rounds as nat));
        }
        if done {
            let r = pair_with_indices(&first);
            proof {
                assert(stops_at(m, seed0, rounds as nat));
                assert(stops_first_at(m, seed0, rounds as nat, r@));
            }
            return r;
        }
        if rounds == u64::MAX {
            let r = pair_with_indices(&second);
            proof {
                assert(second@ == solver_iterate(m, seed0, rounds as nat + 1));
                assert(forall|k: nat| k <= u64::MAX ==> !stops_at(m, seed0, k));
            }
            return r;
        }
        scores = second;
        rounds = rounds + 1;
    }
}

/// The verifier: pre-processes and normalises the inputs, applies the
/// normalised operator once to the submitted scores, and accepts where at
/// every peer the submitted score lies within `DELTA` of the result, bounds
/// included. A peer without a submitted score counts as scoring zero, both
/// in the operator and in the comparison.
pub fn convergence_check(
    lt: Vec<Option<OutboundLocalTrust>>,
    seed: Vec<Option<u32>>,
    scores: &Vec<Option<u32>>,
    count: u64,
) -> (r: bool)
    requires
        lt@.len() == count,
        seed@.len() == count,
        scores@.len() == count,
        rows_ok(lt@, count as nat),
    ensures
        r == verifier_accepts(rows_view(lt@), seed@, scores@),
{
    let ghost m = rows_view(lt@);
    let ghost seed0 = seed@;
    let mut matrix = lt;
    let mut pre_trust = seed;
    pre_process(&mut matrix, &mut pre_trust, count);
    let seed_n = normalise_seed(&pre_trust);
    let lt_n = normalise_lt(&matrix);
    let n = scores.len();
    let mut current: Vec<u32> = Vec::new();
    let mut i: usize = 0;
    while i < n
        invariant
            n == scores@.len(),
            i <= n,
            current@ == dense(scores@).take(i as int),
        decreases n - i,
    {
        let v = match scores[i] {
            Some(v) => v,
            None => ZERO,
        };
        current.push(v);
        proof {
            assert(current@ == dense(scores@).take(i + 1));
        }
        i = i + 1;
    }
    proof {
        assert(dense(scores@).take(n as int) == dense(scores@));
    }
    let next = normalise_scores(&iteration(&lt_n, &seed_n, &current));
    let (ok, _) = is_converged_verifier(scores, &next);
    ok
}

/// Scores returned by the solver, submitted to the verifier: a present value
/// at every index.
pub open spec fn submitted(r: Seq<(u64, u32)>) -> Seq<Option<u32>> {
    Seq::new(r.len(), |i: int| Some(r[i].1))
}

/// Near the fixed point: a solver result moves by at most `DELTA` at every
/// peer under one more normalised application of the operator.
pub proof fn lemma_solver_result_near_fixed_point(
    lt: Seq<Option<RowView>>,
    seed: Seq<Option<u32>>,
    r: Seq<(u64, u32)>,
)
    requires
        is_solver_result(lt, seed, r),
    ensures
        forall|i: int|
            0 <= i < r.len() ==> le_spec(
                abs_spec(crate::single::sub_of(at_or_zero(step(lt, seed, dense(submitted(r))), i), r[i].1)),
                DELTA,
            ),
{
    let k = choose|k: nat| stops_first_at(lt, seed, k, r);
    let s1 = round_result(lt, seed, k);
    assert(dense(submitted(r)) == s1);
    assert forall|i: int| 0 <= i < r.len() implies le_spec(
        abs_spec(crate::single::sub_of(at_or_zero(step(lt, seed, dense(submitted(r))), i), r[i].1)),
        DELTA,
    ) by {
        assert(converged_at(s1, step(lt, seed, s1), i));
    }
}

/// An honest producer is accepted: the verifier accepts every solver result
/// on the same trust matrix and seed. (The solver stops on a strict bound,
/// the verifier accepts on the bound itself.)
pub proof fn lemma_solver_result_accepted(
    lt: Seq<Option<RowView>>,
    seed: Seq<Option<u32>>,
    r: Seq<(u64, u32)>,
)
    requires
        is_solver_result(lt, seed, r),
    ensures
        verifier_accepts(lt, seed, submitted(r)),
{
    lemma_solver_result_near_fixed_point(lt, seed, r);
    let sub = submitted(r);
    let next = step(lt, seed, dense(sub));
    assert forall|i: int| 0 <= i < sub.len() implies accepted_at(sub, next, i) by {
        assert(sub[i] == Some(r[i].1));
    }
}

/// Determinism: what the solver returns is a function of the trust matrix
/// and the seed; two runs on the same inputs return the same scores, and so
/// commit to the same root.
pub proof fn lemma_solver_deterministic(
    lt: Seq<Option<RowView>>,
    seed: Seq<Option<u32>>,
    r1: Seq<(u64, u32)>,
    r2: Seq<(u64, u32)>,
)
    requires
        solver_outcome(lt, seed, r1),
        solver_outcome(lt, seed, r2),
    ensures
        r1 == r2,
        merkle_root(score_leaves(r1)) == merkle_root(score_leaves(r2)),
{
    if is_solver_result(lt, seed, r1) && !is_solver_result(lt, seed, r2) {
        let k1 = choose|k: nat| stops_first_at(lt, seed, k, r1);
        assert(!stops_at(lt, seed, k1));
    }
    if is_solver_result(lt, seed, r2) && !is_solver_result(lt, seed, r1) {
        let k2 = choose|k: nat| stops_first_at(lt, seed, k, r2);
        assert(!stops_at(lt, seed, k2));
    }
    if is_solver_result(lt, seed, r1) && is_solver_result(lt, seed, r2) {
        let k1 = choose|k: nat| stops_first_at(lt, seed, k, r1);
        let k2 = choose|k: nat| stops_first_at(lt, seed, k, r2);
        if k1 < k2 {
            assert(!stops_at(lt, seed, k1));
        }
        if k2 < k1 {
            assert(!stops_at(lt, seed, k2));
        }
    }
}

/// After pre-processing no row trusts its own peer, except a row that was
/// replaced by the seed row (which copies the seed, the peer's own entry
/// included).
pub proof fn lemma_no_self_trust_after_pre_process(
    lt: Seq<Option<RowView>>,
    seed: Seq<Option<u32>>,
    i: int,
)
    requires
        0 <= i < lt.len(),
        pre_processed_lt(lt, seed)[i] is Some,
    ensures
        !has_key(pre_processed_lt(lt, seed)[i].unwrap().0, i as u64) || pre_processed_lt(lt, seed)[i].unwrap()
            == seed_row(rescued_seed(seed)),
{
    let row = pre_processed_lt(lt, seed)[i].unwrap();
    let s = rescued_seed(seed);
    assert(row == filled_row(lt[i], i, s));
    match lt[i] {
        Some(v) => {
            crate::trust::lemma_without_key(v.0, i as u64);
            if row != seed_row(s) {
                assert(row == stripped(v, i));
                if has_key(row.0, i as u64) {
                    let x = choose|x: int| 0 <= x < row.0.len() && row.0[x].0 == i as u64;
                    if !has_key(v.0, i as u64) {
                        assert(v.0[x].0 == i as u64);
                    }
                }
            }
        },
        None => {},
    }
}

proof fn lemma_reach_survives_pruning(
    m: Seq<Option<RowView>>,
    seed: Seq<Option<u32>>,
    j: int,
    k: nat,
)
    requires
        reach_within(filled(m, rescued_seed(seed)), rescued_seed(seed), j, k),
    ensures
        reach_within(pre_processed_lt(m, seed), rescued_seed(seed), j, k),
    decreases k,
{
    let s = rescued_seed(seed);
    let f = filled(m, s);
    let p = pre_processed_lt(m, seed);
    if k > 0 {
        if reach_within(f, s, j, (k - 1) as nat) {
            lemma_reach_survives_pruning(m, seed, j, (k - 1) as nat);
        } else {
            let i = choose|i: int| reach_within(f, s, i, (k - 1) as nat) && #[trigger] edge(f, i, j);
            lemma_reach_survives_pruning(m, seed, i, (k - 1) as nat);
            assert(reachable(f, s, i));
            assert(p[i] == f[i]);
            assert(edge(p, i, j));
        }
    }
}

/// Pruning keeps only reachable peers: every row retained by pre-processing
/// belongs to a peer reachable from the support of the (rescued) seed along
/// positive-weight edges of the retained rows.
pub proof fn lemma_retained_rows_reachable(lt: Seq<Option<RowView>>, seed: Seq<Option<u32>>, i: int)
    requires
        0 <= i < lt.len(),
        pre_processed_lt(lt, seed)[i] is Some,
    ensures
        reachable(pre_processed_lt(lt, seed), rescued_seed(seed), i),
{
    let s = rescued_seed(seed);
    let f = filled(lt, s);
    assert(reachable(f, s, i));
    let k = choose|k: nat| reach_within(f, s, i, k);
    lemma_reach_survives_pruning(lt, seed, i, k);
}

} // verus!
