//! Jaro-Winkler similarity over byte strings.
//!
//! The score is reported exactly, as the counts that the Jaro-Winkler formula
//! is made of; `Score::numerator` and `Score::denominator` give the rational
//! value that the formula assigns to them.

use vstd::prelude::*;
use vstd::string::StringSliceAdditionalSpecFns;

verus! {

/// Capacity of the scratch buffers of a matcher made by `JaroWinkler::new`.
pub const DEFAULT_CAPACITY: usize = 128;


/// Half-width of the matching window when the longer operand has `n` bytes.
pub open spec fn window(n: int) -> int {
    if n / 2 >= 1 {
        n / 2 - 1
    } else {
        0
    }
}

/// First position of the window of `min[i]` in the longer operand.
pub open spec fn window_start(i: int, w: int) -> int {
    if i > w {
        i - w
    } else {
        0
    }
}

/// End (exclusive) of the window of `min[i]` in a longer operand of `n` bytes.
pub open spec fn window_end(i: int, w: int, n: int) -> int {
    if i + w + 1 < n {
        i + w + 1
    } else {
        n
    }
}

/// The first position in `[j, end)` that is not claimed and holds `c`.
pub open spec fn first_free(c: u8, max: Seq<u8>, claimed: Seq<bool>, j: int, end: int) -> Option<
    int,
>
    decreases end - j,
{
    if j >= end {
        None
    } else if !claimed[j] && max[j] == c {
        Some(j)
    } else {
        first_free(c, max, claimed, j + 1, end)
    }
}

/// The position of `max` that `min[i]` claims, given what is claimed already.
pub open spec fn claim_for(min: Seq<u8>, max: Seq<u8>, claimed: Seq<bool>, i: int) -> Option<int> {
    let w = window(max.len() as int);
    first_free(min[i], max, claimed, window_start(i, w), window_end(i, w, max.len() as int))
}

/// Greedy matching of the first `i` bytes of `min` against `max`: which
/// positions of `max` are claimed, and the positions of `min` that found a
/// match, in order.
pub open spec fn greedy(min: Seq<u8>, max: Seq<u8>, i: nat) -> (Seq<bool>, Seq<int>)
    decreases i,
{
    if i == 0 {
        (Seq::new(max.len(), |j: int| false), Seq::empty())
    } else {
        let prev = greedy(min, max, (i - 1) as nat);
        match claim_for(min, max, prev.0, i - 1) {
            Some(j) => (prev.0.update(j, true), prev.1.push(i - 1)),
            None => prev,
        }
    }
}

/// The claimed positions among the first `n`, in ascending order.
pub open spec fn claimed_positions(claimed: Seq<bool>, n: int) -> Seq<int>
    decreases n,
{
    if n <= 0 {
        Seq::empty()
    } else {
        let p = claimed_positions(claimed, n - 1);
        if claimed[n - 1] {
            p.push(n - 1)
        } else {
            p
        }
    }
}

/// Number of matches between `min` and `max`.
pub open spec fn match_count(min: Seq<u8>, max: Seq<u8>) -> nat {
    greedy(min, max, min.len()).1.len()
}


/// Among the first `k` matched pairs (the `k`-th match of `min`, in order,
/// with the `k`-th claimed position of `max`), the number whose bytes differ.
pub open spec fn mismatches(min: Seq<u8>, max: Seq<u8>, order: Seq<int>, pos: Seq<int>, k: int) -> nat
    decreases k,
{
    if k <= 0 {
        0
    } else {
        mismatches(min, max, order, pos, k - 1) + if min[order[k - 1]] != max[pos[k - 1]] {
            1nat
        } else {
            0nat
        }
    }
}

/// Number of transpositions between `min` and `max`: half the matched pairs
/// that are out of order, rounded down.
pub open spec fn transposition_count(min: Seq<u8>, max: Seq<u8>) -> nat {
    let g = greedy(min, max, min.len());
    mismatches(min, max, g.1, claimed_positions(g.0, max.len() as int), g.1.len() as int) / 2
}

/// Length of the common prefix of `a` and `b` from position `k` on, capped
/// at 4.
pub open spec fn prefix_from(a: Seq<u8>, b: Seq<u8>, k: int) -> int
    decreases 4 - k,
{
    if 0 <= k < 4 && k < a.len() && k < b.len() && a[k] == b[k] {
        prefix_from(a, b, k + 1)
    } else {
        k
    }
}

/// Length of the common prefix of `a` and `b`, capped at 4.
pub open spec fn common_prefix(a: Seq<u8>, b: Seq<u8>) -> int {
    prefix_from(a, b, 0)
}

/// Byte order of two strings of equal length, from position `k` on: true
/// when `a` is not greater than `b`.
pub open spec fn bytes_le_from(a: Seq<u8>, b: Seq<u8>, k: int) -> bool
    decreases a.len() - k,
{
    if k < 0 || k >= a.len() || k >= b.len() {
        true
    } else if a[k] != b[k] {
        a[k] < b[k]
    } else {
        bytes_le_from(a, b, k + 1)
    }
}

/// Whether `a` takes the role of the shorter operand when scored against
/// `b`: it has fewer bytes, or as many and is not greater in byte order.
pub open spec fn goes_first(a: Seq<u8>, b: Seq<u8>) -> bool {
    a.len() < b.len() || (a.len() == b.len() && bytes_le_from(a, b, 0))
}

/// The counts of a comparison of `min` against `max` by the matching
/// algorithm, where `min` has no more bytes than `max`.
pub open spec fn jaro_counts(min: Seq<u8>, max: Seq<u8>) -> Score {
    let m = match_count(min, max);
    if m == 0 {
        Score {
            matches: 0,
            transpositions: 0,
            prefix: 0,
            shorter_len: min.len() as usize,
            longer_len: max.len() as usize,
        }
    } else {
        Score {
            matches: m as usize,
            transpositions: transposition_count(min, max) as usize,
            prefix: common_prefix(min, max) as usize,
            shorter_len: min.len() as usize,
            longer_len: max.len() as usize,
        }
    }
}

/// The score of `s1` against `s2`.
pub open spec fn score_of(s1: Seq<u8>, s2: Seq<u8>) -> Score {
    if s1.len() == 0 || s2.len() == 0 {
        Score {
            matches: 0,
            transpositions: 0,
            prefix: 0,
            shorter_len: (if s1.len() <= s2.len() {
                s1.len()
            } else {
                s2.len()
            }) as usize,
            longer_len: (if s1.len() <= s2.len() {
                s2.len()
            } else {
                s1.len()
            }) as usize,
        }
    } else if goes_first(s1, s2) {
        jaro_counts(s1, s2)
    } else {
        jaro_counts(s2, s1)
    }
}

/// Capacity after growing from `cap` to hold `need`: unchanged when it
/// suffices, else doubled, or `need` itself where doubling falls short.
pub open spec fn grown(cap: nat, need: nat) -> nat {
    if need <= cap {
        cap
    } else if 2 * cap < need {
        need
    } else if 2 * cap <= usize::MAX {
        2 * cap
    } else {
        usize::MAX as nat
    }
}

/// The outcome of a Jaro-Winkler comparison: the counts that the formula is
/// made of. With `a` and `b` the lengths, `m` the matches, `t` the
/// transpositions and `p` the common prefix, the similarity is
/// `J + p / 10 * (1 - J)` where `J = (m / a + m / b + (m - t) / m) / 3`;
/// it is 1 when both operands are empty and 0 when there is no match.
#[derive(Clone, Copy, Debug, PartialEq, Eq, Structural)]
pub struct Score {
    /// Matched characters.
    pub matches: usize,
    /// Transpositions among the matched characters.
    pub transpositions: usize,
    /// Common prefix length, at most 4.
    pub prefix: usize,
    /// Length in bytes of the shorter operand.
    pub shorter_len: usize,
    /// Length in bytes of the longer operand.
    pub longer_len: usize,
}

impl Score {
    /// Numerator of the Jaro similarity, over `jaro_denominator`.
    pub open spec fn jaro_numerator(self) -> int {
        let m = self.matches as int;
        let a = self.shorter_len as int;
        let b = self.longer_len as int;
        m * m * b + m * m * a + (m - self.transpositions) * a * b
    }

    /// Denominator of the Jaro similarity.
    pub open spec fn jaro_denominator(self) -> int {
        3 * self.shorter_len * self.longer_len * self.matches
    }

    /// Numerator of the similarity as an exact fraction.
    pub open spec fn numerator(self) -> int {
        if self.shorter_len == 0 && self.longer_len == 0 {
            1
        } else if self.matches == 0 {
            0
        } else {
            (10 - self.prefix) * self.jaro_numerator() + self.prefix * self.jaro_denominator()
        }
    }

    /// Denominator of the similarity as an exact fraction.
    pub open spec fn denominator(self) -> int {
        if self.shorter_len == 0 && self.longer_len == 0 {
            1
        } else if self.matches == 0 {
            1
        } else {
            10 * self.jaro_denominator()
        }
    }
}

proof fn lemma_first_free(c: u8, max: Seq<u8>, claimed: Seq<bool>, j: int, end: int)
    ensures
        first_free(c, max, claimed, j, end) matches Some(p) ==> j <= p < end && !claimed[p]
            && max[p] == c,
    decreases end - j,
{
    if j < end && !(!claimed[j] && max[j] == c) {
        lemma_first_free(c, max, claimed, j + 1, end);
    }
}

proof fn lemma_positions_agree(a: Seq<bool>, b: Seq<bool>, n: int)
    requires
        n <= a.len(),
        n <= b.len(),
        forall|k: int| 0 <= k < n ==> a[k] == b[k],
    ensures
        claimed_positions(a, n) == claimed_positions(b, n),
    decreases n,
{
    if n > 0 {
        lemma_positions_agree(a, b, n - 1);
    }
}

proof fn lemma_positions_update(c: Seq<bool>, n: int, j: int)
    requires
        0 <= j < n <= c.len(),
        !c[j],
    ensures
        claimed_positions(c.update(j, true), n).len() == claimed_positions(c, n).len() + 1,
    decreases n,
{
    if j < n - 1 {
        lemma_positions_update(c, n - 1, j);
    } else {
        lemma_positions_agree(c, c.update(j, true), n - 1);
    }
}

/// What greedy matching builds: claimed flags over the longer operand, one
/// claimed position per match, and the matched positions of the shorter
/// operand in ascending order.
proof fn lemma_greedy(min: Seq<u8>, max: Seq<u8>, i: nat)
    requires
        i <= min.len(),
    ensures
        greedy(min, max, i).0.len() == max.len(),
        greedy(min, max, i).1.len() <= i,
        forall|k: int|
            0 <= k < greedy(min, max, i).1.len() ==> 0 <= #[trigger] greedy(min, max, i).1[k] < i,
        forall|k: int, l: int|
            0 <= k < l < greedy(min, max, i).1.len() ==> greedy(min, max, i).1[k] < greedy(
                min,
                max,
                i,
            ).1[l],
        claimed_positions(greedy(min, max, i).0, max.len() as int).len() == greedy(
            min,
            max,
            i,
        ).1.len(),
    decreases i,
{
    if i == 0 {
        let c = greedy(min, max, 0).0;
        assert forall|n: int| 0 <= n <= max.len() implies claimed_positions(c, n).len() == 0 by {
            lemma_no_positions(c, n);
        }
    } else {
        let prev = greedy(min, max, (i - 1) as nat);
        lemma_greedy(min, max, (i - 1) as nat);
        let w = window(max.len() as int);
        lemma_first_free(
            min[i - 1],
            max,
            prev.0,
            window_start(i - 1, w),
            window_end(i - 1, w, max.len() as int),
        );
        if let Some(j) = claim_for(min, max, prev.0, i - 1) {
            lemma_positions_update(prev.0, max.len() as int, j);
        }
    }
}

proof fn lemma_positions(c: Seq<bool>, n: int)
    requires
        0 <= n <= c.len(),
    ensures
        forall|k: int|
            0 <= k < claimed_positions(c, n).len() ==> 0 <= #[trigger] claimed_positions(c, n)[k]
                < n && c[claimed_positions(c, n)[k]],
        forall|k: int, l: int|
            0 <= k < l < claimed_positions(c, n).len() ==> claimed_positions(c, n)[k]
                < claimed_positions(c, n)[l],
        forall|j: int|
            0 <= j < n && #[trigger] c[j] ==> exists|k: int|
                0 <= k < claimed_positions(c, n).len() && claimed_positions(c, n)[k] == j,
    decreases n,
{
    if n > 0 {
        lemma_positions(c, n - 1);
        let p = claimed_positions(c, n - 1);
        if c[n - 1] {
            let q = p.push(n - 1);
            assert(claimed_positions(c, n) == q);
            assert forall|j: int| 0 <= j < n && #[trigger] c[j] implies exists|k: int|
                0 <= k < q.len() && q[k] == j by {
                if j == n - 1 {
                    assert(q[p.len() as int] == j);
                } else {
                    let k = choose|k: int| 0 <= k < p.len() && p[k] == j;
                    assert(q[k] == j);
                }
            }
        } else {
            assert(claimed_positions(c, n) == p);
            assert forall|j: int| 0 <= j < n && #[trigger] c[j] implies exists|k: int|
                0 <= k < p.len() && p[k] == j by {
                let k = choose|k: int| 0 <= k < p.len() && p[k] == j;
                assert(p[k] == j);
            }
        }
    }
}

proof fn lemma_first_free_at(c: u8, max: Seq<u8>, claimed: Seq<bool>, j: int, i: int, end: int)
    requires
        j <= i < end,
        forall|q: int| j <= q < i ==> claimed[q],
        !claimed[i],
        max[i] == c,
    ensures
        first_free(c, max, claimed, j, end) == Some(i),
    decreases i - j,
{
    if j < i {
        lemma_first_free_at(c, max, claimed, j + 1, i, end);
    }
}

/// Matching a string against itself claims every position in place.
proof fn lemma_greedy_identical(a: Seq<u8>, i: nat)
    requires
        i <= a.len(),
    ensures
        greedy(a, a, i).0 == Seq::new(a.len(), |j: int| j < i),
        greedy(a, a, i).1 == Seq::new(i, |k: int| k),
    decreases i,
{
    if i > 0 {
        let k = i - 1;
        lemma_greedy_identical(a, k as nat);
        let prev = greedy(a, a, k as nat);
        let w = window(a.len() as int);
        lemma_first_free_at(a[k], a, prev.0, window_start(k, w), k, window_end(k, w, a.len() as int));
        assert(prev.0.update(k, true) =~= Seq::new(a.len(), |j: int| j < i));
        assert(prev.1.push(k) =~= Seq::new(i, |q: int| q));
    }
}

proof fn lemma_positions_all(n: int, len: nat)
    requires
        0 <= n <= len,
    ensures
        claimed_positions(Seq::new(len, |j: int| j < len), n) == Seq::new(n as nat, |k: int| k),
    decreases n,
{
    if n > 0 {
        lemma_positions_all(n - 1, len);
        assert(Seq::new((n - 1) as nat, |k: int| k).push(n - 1) =~= Seq::new(n as nat, |k: int| k));
    }
}

proof fn lemma_no_mismatches(a: Seq<u8>, order: Seq<int>, k: int)
    requires
        0 <= k <= order.len() <= a.len(),
        forall|q: int| 0 <= q < order.len() ==> order[q] == q,
    ensures
        mismatches(a, a, order, order, k) == 0,
    decreases k,
{
    if k > 0 {
        lemma_no_mismatches(a, order, k - 1);
    }
}

proof fn lemma_prefix_identical(a: Seq<u8>, k: int)
    requires
        0 <= k <= 4,
        k <= a.len(),
    ensures
        prefix_from(a, a, k) == if a.len() < 4 {
            a.len() as int
        } else {
            4
        },
    decreases 4 - k,
{
    if k < 4 && k < a.len() {
        lemma_prefix_identical(a, k + 1);
    }
}

/// The counts that the matching algorithm gives for a non-empty string
/// against itself: every byte matches in place, with no transposition.
proof fn lemma_identical_counts(a: Seq<u8>)
    requires
        0 < a.len() <= usize::MAX,
    ensures
        jaro_counts(a, a) == (Score {
            matches: a.len() as usize,
            transpositions: 0,
            prefix: (if a.len() < 4 {
                a.len()
            } else {
                4
            }) as usize,
            shorter_len: a.len() as usize,
            longer_len: a.len() as usize,
        }),
{
    lemma_greedy_identical(a, a.len());
    lemma_positions_all(a.len() as int, a.len());
    let g = greedy(a, a, a.len());
    assert(g.0 =~= Seq::new(a.len(), |j: int| j < a.len()));
    lemma_no_mismatches(a, g.1, a.len() as int);
    lemma_prefix_identical(a, 0);
}

proof fn lemma_mismatches_bound(min: Seq<u8>, max: Seq<u8>, order: Seq<int>, pos: Seq<int>, k: int)
    requires
        0 <= k,
    ensures
        mismatches(min, max, order, pos, k) <= k,
    decreases k,
{
    if k > 0 {
        lemma_mismatches_bound(min, max, order, pos, k - 1);
    }
}

/// There are no more transpositions than matches.
proof fn lemma_transpositions_bound(min: Seq<u8>, max: Seq<u8>)
    ensures
        transposition_count(min, max) <= match_count(min, max),
{
    let g = greedy(min, max, min.len());
    lemma_mismatches_bound(
        min,
        max,
        g.1,
        claimed_positions(g.0, max.len() as int),
        g.1.len() as int,
    );
}

proof fn lemma_no_positions(c: Seq<bool>, n: int)
    requires
        n <= c.len(),
        forall|k: int| 0 <= k < n ==> !c[k],
    ensures
        claimed_positions(c, n).len() == 0,
    decreases n,
{
    if n > 0 {
        lemma_no_positions(c, n - 1);
    }
}

proof fn lemma_prefix_range(a: Seq<u8>, b: Seq<u8>, k: int)
    requires
        0 <= k <= 4,
    ensures
        k <= prefix_from(a, b, k) <= 4,
    decreases 4 - k,
{
    if k < 4 && k < a.len() && k < b.len() && a[k] == b[k] {
        lemma_prefix_range(a, b, k + 1);
    }
}

proof fn lemma_bytes_order(a: Seq<u8>, b: Seq<u8>, k: int)
    requires
        a.len() == b.len(),
        0 <= k,
    ensures
        bytes_le_from(a, b, k) || bytes_le_from(b, a, k),
        bytes_le_from(a, b, k) && bytes_le_from(b, a, k) ==> forall|j: int|
            k <= j < a.len() ==> a[j] == b[j],
    decreases a.len() - k,
{
    if k < a.len() && a[k] == b[k] {
        lemma_bytes_order(a, b, k + 1);
    }
}

proof fn lemma_fraction_bounds(m: int, t: int, p: int, a: int, b: int)
    requires
        0 < m <= a <= b,
        0 <= t <= m,
        0 <= p <= 4,
    ensures
        0 < 3 * a * b * m,
        0 <= m * m * b + m * m * a + (m - t) * a * b <= 3 * a * b * m,
        0 <= (10 - p) * (m * m * b + m * m * a + (m - t) * a * b) + p * (3 * a * b * m) <= 10 * (3
            * a * b * m),
{
    let d = a * b * m;
    assert(0 < d && 3 * a * b * m == 3 * d) by (nonlinear_arith)
        requires
            0 < m <= a <= b,
            d == a * b * m,
    ;
    assert(0 <= m * m * b <= d) by (nonlinear_arith)
        requires
            0 < m <= a <= b,
            d == a * b * m,
    ;
    assert(0 <= m * m * a <= d) by (nonlinear_arith)
        requires
            0 < m <= a <= b,
            d == a * b * m,
    ;
    assert(0 <= (m - t) * a * b <= d) by (nonlinear_arith)
        requires
            0 < m <= a <= b,
            0 <= t <= m,
            d == a * b * m,
    ;
    let n = m * m * b + m * m * a + (m - t) * a * b;
    assert(0 <= (10 - p) * n + p * (3 * d) <= 10 * (3 * d)) by (nonlinear_arith)
        requires
            0 <= n <= 3 * d,
            0 <= p <= 4,
    ;
}

/// Any string scored against itself has similarity exactly 1; for a
/// non-empty string these are the counts that the matching algorithm gives.
pub proof fn lemma_identical_scores_one(a: Seq<u8>)
    requires
        a.len() <= usize::MAX,
    ensures
        score_of(a, a).denominator() > 0,
        score_of(a, a).numerator() == score_of(a, a).denominator(),
{
    if a.len() > 0 {
        lemma_identical_counts(a);
        let r = score_of(a, a);
        let n = a.len() as int;
        let p = r.prefix as int;
        let x = 3 * n * n * n;
        assert(n * n * n + n * n * n + (n - 0) * n * n == x && x > 0) by (nonlinear_arith)
            requires
                n > 0,
                x == 3 * n * n * n,
        ;
        assert((10 - p) * x + p * x == 10 * x) by (nonlinear_arith);
    }
}

/// Two empty strings have similarity 1; an empty string against a non-empty
/// one, in either order, has similarity 0.
pub proof fn lemma_empty_operands(x: Seq<u8>)
    requires
        0 < x.len() <= usize::MAX,
    ensures
        score_of(Seq::empty(), Seq::empty()).numerator() == 1,
        score_of(Seq::empty(), Seq::empty()).denominator() == 1,
        score_of(Seq::empty(), x).numerator() == 0,
        score_of(Seq::empty(), x).denominator() == 1,
        score_of(x, Seq::empty()).numerator() == 0,
        score_of(x, Seq::empty()).denominator() == 1,
{
}

/// The similarity of any two strings lies between 0 and 1.
pub proof fn lemma_score_in_unit_range(a: Seq<u8>, b: Seq<u8>)
    requires
        a.len() <= usize::MAX,
        b.len() <= usize::MAX,
    ensures
        score_of(a, b).denominator() > 0,
        0 <= score_of(a, b).numerator() <= score_of(a, b).denominator(),
{
    if a.len() > 0 && b.len() > 0 {
        let (min, max) = if goes_first(a, b) {
            (a, b)
        } else {
            (b, a)
        };
        assert(score_of(a, b) == jaro_counts(min, max));
        lemma_greedy(min, max, min.len());
        lemma_transpositions_bound(min, max);
        lemma_prefix_range(min, max, 0);
        let r = jaro_counts(min, max);
        if r.matches > 0 {
            lemma_fraction_bounds(
                r.matches as int,
                r.transpositions as int,
                r.prefix as int,
                r.shorter_len as int,
                r.longer_len as int,
            );
        }
    }
}

/// Scoring does not depend on the order of the operands.
pub proof fn lemma_order_independent(a: Seq<u8>, b: Seq<u8>)
    ensures
        score_of(a, b) == score_of(b, a),
{
    if a.len() == b.len() {
        lemma_bytes_order(a, b, 0);
        if bytes_le_from(a, b, 0) && bytes_le_from(b, a, 0) {
            assert(a =~= b);
        }
    }
}

/// A Jaro-Winkler matcher that keeps its scratch buffers between calls, so
/// that scoring allocates only when an input pair is larger than any before.
pub struct JaroWinkler {
    /// For each match found, in the order found: the position of the matched
    /// character in the shorter operand. Unused slots hold `None`.
    order: Vec<Option<usize>>,
    /// For each position of the longer operand: whether a match claimed it.
    claimed: Vec<bool>,
}

impl JaroWinkler {
    /// Number of operand characters, both operands together, that the
    /// buffers can hold without growing.
    pub closed spec fn capacity(&self) -> nat {
        self.order@.len()
    }

    /// Both buffers have the same positive length and are fully reset.
    pub closed spec fn wf(&self) -> bool {
        &&& self.order@.len() == self.claimed@.len()
        &&& self.order@.len() > 0
        &&& forall|k: int| 0 <= k < self.order@.len() ==> self.order@[k] is None
        &&& forall|j: int| 0 <= j < self.claimed@.len() ==> !self.claimed@[j]
    }

    /// A matcher whose buffers hold `DEFAULT_CAPACITY` characters.
    pub fn new() -> (r: Self)
        ensures
            r.wf(),
            r.capacity() == DEFAULT_CAPACITY,
    {
        JaroWinkler::with_size(DEFAULT_CAPACITY)
    }

    /// A matcher whose buffers hold `size` characters; a zero size is a
    /// programming error.
    pub fn with_size(size: usize) -> (r: Self)
        requires
            size > 0,
        ensures
            r.wf(),
            r.capacity() == size,
    {
        let (order, claimed) = reset_buffers(size);
        JaroWinkler { order, claimed }
    }

    /// The greedy matching pass: each byte of `min`, in turn, claims the
    /// first unclaimed equal byte of `max` inside its window.
    fn claim_matches(&mut self, min: &[u8], max: &[u8]) -> (m: usize)
        requires
            old(self).wf(),
            0 < min@.len() <= max@.len(),
            min@.len() + max@.len() <= old(self).capacity(),
        ensures
            final(self).order@.len() == old(self).order@.len(),
            final(self).claimed@.len() == old(self).claimed@.len(),
            m == match_count(min@, max@),
            forall|k: int|
                0 <= k < m ==> final(self).order@[k] == Some(
                    greedy(min@, max@, min@.len()).1[k] as usize,
                ),
            forall|k: int| m <= k < final(self).order@.len() ==> final(self).order@[k] is None,
            forall|j: int|
                0 <= j < max@.len() ==> final(self).claimed@[j] == greedy(
                    min@,
                    max@,
                    min@.len(),
                ).0[j],
            forall|j: int| max@.len() <= j < final(self).claimed@.len() ==> !final(self).claimed@[j],
    {
        let n = max.len();
        let w: usize = if n / 2 >= 1 {
            n / 2 - 1
        } else {
            0
        };
        let mut m: usize = 0;
        let mut i: usize = 0;
        while i < min.len()
            invariant
                i <= min@.len(),
                0 < min@.len() <= max@.len(),
                min@.len() + max@.len() <= self.order@.len(),
                n == max@.len(),
                w == window(n as int),
                w < n,
                self.order@.len() == old(self).order@.len(),
                self.claimed@.len() == old(self).claimed@.len(),
                self.order@.len() == self.claimed@.len(),
                m == greedy(min@, max@, i as nat).1.len(),
                m <= i,
                forall|k: int|
                    0 <= k < m ==> self.order@[k] == Some(greedy(min@, max@, i as nat).1[k] as usize),
                forall|k: int| m <= k < self.order@.len() ==> self.order@[k] is None,
                forall|j: int| 0 <= j < n ==> self.claimed@[j] == greedy(min@, max@, i as nat).0[j],
                forall|j: int| n <= j < self.claimed@.len() ==> !self.claimed@[j],
            decreases min@.len() - i,
        {
            proof {
                lemma_greedy(min@, max@, i as nat);
            }
            let ghost before = greedy(min@, max@, i as nat);
            let c = min[i];
            let start: usize = if i > w {
                i - w
            } else {
                0
            };
            let end: usize = if w + 1 < n - i {
                i + w + 1
            } else {
                n
            };
            let mut j: usize = start;
            while j < end && (max[j] != c || self.claimed[j])
                invariant
                    start <= j <= end <= n,
                    n == max@.len(),
                    self.claimed@.len() >= n,
                    forall|q: int| 0 <= q < n ==> self.claimed@[q] == before.0[q],
                    first_free(c, max@, before.0, start as int, end as int) == first_free(
                        c,
                        max@,
                        before.0,
                        j as int,
                        end as int,
                    ),
                decreases end - j,
            {
                j = j + 1;
            }
            proof {
                lemma_first_free(c, max@, before.0, start as int, end as int);
            }
            if j < end {
                self.order[m] = Some(i);
                self.claimed[j] = true;
                m = m + 1;
            }
            i = i + 1;
            proof {
                lemma_greedy(min@, max@, i as nat);
            }
        }
        m
    }

    /// Walks the matches in the order found together with the claimed
    /// positions of `max` in ascending order, counting the pairs whose bytes
    /// differ, and resets every slot it visits.
    fn count_transpositions(&mut self, min: &[u8], max: &[u8], m: usize) -> (t: usize)
        requires
            old(self).order@.len() == old(self).claimed@.len(),
            0 < min@.len() <= max@.len(),
            min@.len() + max@.len() <= old(self).order@.len(),
            m == match_count(min@, max@),
            forall|k: int|
                0 <= k < m ==> old(self).order@[k] == Some(
                    greedy(min@, max@, min@.len()).1[k] as usize,
                ),
            forall|k: int| m <= k < old(self).order@.len() ==> old(self).order@[k] is None,
            forall|j: int|
                0 <= j < max@.len() ==> old(self).claimed@[j] == greedy(
                    min@,
                    max@,
                    min@.len(),
                ).0[j],
            forall|j: int| max@.len() <= j < old(self).claimed@.len() ==> !old(self).claimed@[j],
        ensures
            final(self).wf(),
            final(self).capacity() == old(self).capacity(),
            t == transposition_count(min@, max@),
    {
        let ghost g = greedy(min@, max@, min@.len());
        let ghost pos = claimed_positions(g.0, max@.len() as int);
        proof {
            lemma_greedy(min@, max@, min@.len());
            lemma_positions(g.0, max@.len() as int);
        }
        let n = max.len();
        let mut t: usize = 0;
        let mut mi: usize = 0;
        let mut k: usize = 0;
        while k < m
            invariant
                k <= m,
                m == g.1.len(),
                m == pos.len(),
                m <= min@.len(),
                g == greedy(min@, max@, min@.len()),
                pos == claimed_positions(g.0, max@.len() as int),
                n == max@.len(),
                g.0.len() == n,
                0 < min@.len() <= max@.len(),
                min@.len() + max@.len() <= self.order@.len(),
                self.order@.len() == old(self).order@.len(),
                self.claimed@.len() == old(self).claimed@.len(),
                self.order@.len() == self.claimed@.len(),
                forall|q: int| 0 <= q < m ==> 0 <= #[trigger] g.1[q] < min@.len(),
                forall|q: int| 0 <= q < pos.len() ==> 0 <= #[trigger] pos[q] < n && g.0[pos[q]],
                forall|q: int, l: int| 0 <= q < l < pos.len() ==> pos[q] < pos[l],
                forall|j: int|
                    0 <= j < n && #[trigger] g.0[j] ==> exists|q: int|
                        0 <= q < pos.len() && pos[q] == j,
                k == 0 ==> mi == 0,
                k > 0 ==> mi == pos[k - 1] + 1,
                mi <= n,
                forall|j: int| 0 <= j < mi ==> !self.claimed@[j],
                forall|j: int| mi <= j < n ==> self.claimed@[j] == g.0[j],
                forall|j: int| n <= j < self.claimed@.len() ==> !self.claimed@[j],
                forall|q: int| 0 <= q < k ==> self.order@[q] is None,
                forall|q: int| k <= q < m ==> self.order@[q] == Some(g.1[q] as usize),
                forall|q: int| m <= q < self.order@.len() ==> self.order@[q] is None,
                t == mismatches(min@, max@, g.1, pos, k as int),
                t <= k,
            decreases m - k,
        {
            let mi0: usize = mi;
            let ghost target = pos[k as int];
            assert forall|j: int| mi0 <= j < target implies !g.0[j] by {
                if g.0[j] {
                    let l = choose|l: int| 0 <= l < pos.len() && pos[l] == j;
                    if l < k {
                        if l < k - 1 {
                            assert(pos[l] < pos[k - 1]);
                        }
                    } else if l > k {
                        assert(pos[k as int] < pos[l]);
                    }
                }
            }
            while !self.claimed[mi]
                invariant
                    self.order@.len() == self.claimed@.len(),
                    k < m,
                    m <= self.order@.len(),
                    forall|q: int| k <= q < m ==> self.order@[q] == Some(g.1[q] as usize),
                    mi0 <= mi <= target,
                    target < n,
                    n <= self.claimed@.len(),
                    g.0[target],
                    forall|j: int| mi0 <= j < target ==> !g.0[j],
                    forall|j: int| mi0 <= j < n ==> self.claimed@[j] == g.0[j],
                    forall|j: int| 0 <= j < mi0 ==> !self.claimed@[j],
                    forall|j: int| n <= j < self.claimed@.len() ==> !self.claimed@[j],
                    forall|q: int| 0 <= q < k ==> self.order@[q] is None,
                    forall|q: int| m <= q < self.order@.len() ==> self.order@[q] is None,
                decreases target - mi,
            {
                mi = mi + 1;
            }
            assert(self.claimed@[mi as int]);
            assert(g.0[mi as int]);
            assert(mi == target);
            let x = match self.order[k] {
                Some(x) => x,
                None => 0,
            };
            if min[x] != max[mi] {
                t = t + 1;
            }
            self.claimed[mi] = false;
            assert forall|j: int| 0 <= j <= mi implies !self.claimed@[j] by {
                if mi0 <= j < mi {
                    assert(!g.0[j]);
                }
            }
            self.order[k] = None;
            mi = mi + 1;
            k = k + 1;
        }
        proof {
            assert forall|j: int| 0 <= j < self.claimed@.len() implies !self.claimed@[j] by {
                if mi <= j < n && g.0[j] {
                    let l = choose|l: int| 0 <= l < pos.len() && pos[l] == j;
                    if l < m - 1 {
                        assert(pos[l] < pos[m - 1]);
                    }
                }
            }
        }
        t / 2
    }

    /// Grows the buffers so that they hold `need` characters: unchanged when
    /// they already do, else to twice their capacity, or to `need` itself
    /// where doubling falls short.
    fn ensure_capacity(&mut self, need: usize)
        requires
            old(self).wf(),
        ensures
            final(self).wf(),
            final(self).capacity() == grown(old(self).capacity(), need as nat),
    {
        let cap = self.order.len();
        if need <= cap {
            return;
        }
        let mut new_cap: usize = if cap <= usize::MAX / 2 {
            cap * 2
        } else {
            usize::MAX
        };
        if new_cap < need {
            new_cap = need;
        }
        let (order, claimed) = reset_buffers(new_cap);
        self.order = order;
        self.claimed = claimed;
    }

    /// Scores `min` against `max`, which has at least as many bytes.
    fn calculate(&mut self, min: &[u8], max: &[u8]) -> (r: Score)
        requires
            old(self).wf(),
            0 < min@.len() <= max@.len(),
            min@.len() + max@.len() <= old(self).capacity(),
        ensures
            final(self).wf(),
            final(self).capacity() == old(self).capacity(),
            r == jaro_counts(min@, max@),
    {
        let m = self.claim_matches(min, max);
        let t = self.count_transpositions(min, max, m);
        proof {
            lemma_greedy(min@, max@, min@.len());
            lemma_transpositions_bound(min@, max@);
        }
        if m == 0 {
            return Score {
                matches: 0,
                transpositions: 0,
                prefix: 0,
                shorter_len: min.len(),
                longer_len: max.len(),
            };
        }
        let p = common_prefix_len(min, max);
        Score { matches: m, transpositions: t, prefix: p, shorter_len: min.len(), longer_len: max.len() }
    }

    /// Scores `s1` against `s2`. The result depends on the two strings alone,
    /// never on earlier calls; the buffers grow only for a pair of distinct,
    /// non-empty strings that together outgrow them.
    pub fn apply(&mut self, s1: &str, s2: &str) -> (r: Score)
        requires
            old(self).wf(),
            s1.spec_bytes().len() + s2.spec_bytes().len() <= usize::MAX,
        ensures
            final(self).wf(),
            r == score_of(s1.spec_bytes(), s2.spec_bytes()),
            final(self).capacity() == if s1.spec_bytes().len() == 0 || s2.spec_bytes().len() == 0
                || s1.spec_bytes() == s2.spec_bytes() {
                old(self).capacity()
            } else {
                grown(old(self).capacity(), s1.spec_bytes().len() + s2.spec_bytes().len())
            },
    {
        let b1 = s1.as_bytes();
        let b2 = s2.as_bytes();
        if b1.len() == 0 || b2.len() == 0 {
            let (shorter_len, longer_len) = if b1.len() <= b2.len() {
                (b1.len(), b2.len())
            } else {
                (b2.len(), b1.len())
            };
            return Score { matches: 0, transpositions: 0, prefix: 0, shorter_len, longer_len };
        }
        let first = if b1.len() != b2.len() {
            b1.len() < b2.len()
        } else {
            match first_difference(b1, b2) {
                None => {
                    proof {
                        assert(b1@ =~= b2@);
                        lemma_identical_counts(b1@);
                    }
                    let n = b1.len();
                    return Score {
                        matches: n,
                        transpositions: 0,
                        prefix: if n < 4 {
                            n
                        } else {
                            4
                        },
                        shorter_len: n,
                        longer_len: n,
                    };
                },
                Some(k) => b1[k] < b2[k],
            }
        };
        self.ensure_capacity(b1.len() + b2.len());
        if first {
            self.calculate(b1, b2)
        } else {
            self.calculate(b2, b1)
        }
    }
}

/// The first position where `a` and `b`, of equal length, differ.
fn first_difference(a: &[u8], b: &[u8]) -> (r: Option<usize>)
    requires
        a@.len() == b@.len(),
    ensures
        r is None ==> a@ == b@,
        r matches Some(k) ==> k < a@.len() && a@[k as int] != b@[k as int] && bytes_le_from(a@, b@, 0)
            == (a@[k as int] < b@[k as int]),
{
    let mut k: usize = 0;
    while k < a.len()
        invariant
            k <= a@.len(),
            a@.len() == b@.len(),
            forall|j: int| 0 <= j < k ==> a@[j] == b@[j],
            bytes_le_from(a@, b@, 0) == bytes_le_from(a@, b@, k as int),
        decreases a@.len() - k,
    {
        if a[k] != b[k] {
            return Some(k);
        }
        k = k + 1;
    }
    assert(a@ =~= b@);
    None
}

/// Length of the common prefix of `a` and `b`, capped at 4.
fn common_prefix_len(a: &[u8], b: &[u8]) -> (p: usize)
    ensures
        p == common_prefix(a@, b@),
{
    let mut k: usize = 0;
    while k < 4 && k < a.len() && k < b.len() && a[k] == b[k]
        invariant
            k <= 4,
            prefix_from(a@, b@, 0) == prefix_from(a@, b@, k as int),
        decreases 4 - k,
    {
        k = k + 1;
    }
    k
}

/// Two buffers of `n` slots each, all unset.
fn reset_buffers(n: usize) -> (r: (Vec<Option<usize>>, Vec<bool>))
    ensures
        r.0@.len() == n,
        r.1@.len() == n,
        forall|k: int| 0 <= k < n ==> r.0@[k] is None,
        forall|j: int| 0 <= j < n ==> !r.1@[j],
{
    let mut order: Vec<Option<usize>> = Vec::with_capacity(n);
    let mut claimed: Vec<bool> = Vec::with_capacity(n);
    let mut k: usize = 0;
    while k < n
        invariant
            k <= n,
            order@.len() == k,
            claimed@.len() == k,
            forall|i: int| 0 <= i < k ==> order@[i] is None,
            forall|j: int| 0 <= j < k ==> !claimed@[j],
        decreases n - k,
    {
        order.push(None);
        claimed.push(false);
        k = k + 1;
    }
    (order, claimed)
}

} // verus!
