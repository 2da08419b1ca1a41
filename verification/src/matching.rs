use vstd::prelude::*;
use crate::pairing::Pair;
use crate::pairing::min_i;
use crate::signature::{jaccard, Signature, SIMILARITY_SCALE};

verus! {

/// Below this a pair is worse than leaving both sheets unmatched (millionths
/// of similarity).
///
/// The runner-up on sample sets scores up to 0.63: one of them repeats a
/// channel sheet eight times over, differing only in a number. So this cannot
/// be set by "the best score wins". It is the alignment that separates them,
/// using the order the sheets come in.
pub const MATCH_FLOOR: i64 = 350_000;

/// What leaving a sheet unmatched costs (millionths of similarity).
///
/// Small, but not zero: a set that genuinely gained a sheet should show it as
/// added rather than dragging every later sheet out of step, and free gaps
/// would let the aligner do exactly that.
pub const GAP: i64 = -50_000;

/// The token sets of a document's sheets, in order.
pub open spec fn sheet_sets(s: Seq<Signature>) -> Seq<Set<Seq<char>>> {
    s.map_values(|x: Signature| x.tokens())
}

/// What pairing sheet `i` of the first document with sheet `j` of the second
/// adds to an alignment.
///
/// A pair spares the two gaps that leaving both sheets alone would cost, so it
/// is scored as its similarity above the floor plus those two gaps: it beats
/// leaving both sheets unmatched exactly when its similarity reaches
/// `MATCH_FLOOR`.
pub open spec fn pair_gain(a: Seq<Set<Seq<char>>>, b: Seq<Set<Seq<char>>>, i: int, j: int) -> int {
    jaccard(a[i], b[j]) - MATCH_FLOOR + 2 * GAP
}

pub open spec fn max2(x: int, y: int) -> int {
    if x >= y {
        x
    } else {
        y
    }
}

/// What is left of the alignment from `(i, j)` on.
pub open spec fn rest(a: Seq<Set<Seq<char>>>, b: Seq<Set<Seq<char>>>, i: int, j: int) -> nat {
    ((if i < a.len() { a.len() - i } else { 0 }) + (if j < b.len() { b.len() - j } else { 0 })) as nat
}

/// The best score of an alignment of `a[i..]` against `b[j..]`: each sheet is
/// either paired with one of the other document, in order, for its gain, or
/// left alone for `GAP`.
pub open spec fn best(a: Seq<Set<Seq<char>>>, b: Seq<Set<Seq<char>>>, i: int, j: int) -> int
    decreases rest(a, b, i, j),
{
    if i >= a.len() && j >= b.len() {
        0
    } else if i >= a.len() {
        best(a, b, i, j + 1) + GAP
    } else if j >= b.len() {
        best(a, b, i + 1, j) + GAP
    } else {
        max2(
            max2(best(a, b, i + 1, j + 1) + pair_gain(a, b, i, j), best(a, b, i + 1, j) + GAP),
            best(a, b, i, j + 1) + GAP,
        )
    }
}

/// One step of the way back through the table.
pub enum Step {
    Both,
    OnlyA,
    OnlyB,
}

/// The step the walk takes at `(i, j)`: pair the two sheets where that scores
/// at least as well as either gap, else leave the first document's sheet alone
/// where that scores at least as well as leaving the second's, else the
/// second's.
pub open spec fn step(a: Seq<Set<Seq<char>>>, b: Seq<Set<Seq<char>>>, i: int, j: int) -> Step {
    let vboth = best(a, b, i + 1, j + 1) + pair_gain(a, b, i, j);
    let va = best(a, b, i + 1, j) + GAP;
    let vb = best(a, b, i, j + 1) + GAP;
    if i < a.len() && j < b.len() && vboth >= va && vboth >= vb {
        Step::Both
    } else if i < a.len() && (j >= b.len() || va >= vb) {
        Step::OnlyA
    } else {
        Step::OnlyB
    }
}

/// The pairs the walk from `(i, j)` emits: the optimal alignment, read in
/// order, one pair per virtual sheet.
pub open spec fn walk(a: Seq<Set<Seq<char>>>, b: Seq<Set<Seq<char>>>, i: int, j: int) -> Seq<Pair>
    decreases rest(a, b, i, j),
{
    if i >= a.len() && j >= b.len() {
        Seq::empty()
    } else {
        match step(a, b, i, j) {
            Step::Both => seq![Pair { page_a: (i + 1) as i32, page_b: (j + 1) as i32 }] + walk(
                a,
                b,
                i + 1,
                j + 1,
            ),
            Step::OnlyA => seq![Pair { page_a: (i + 1) as i32, page_b: 0 }] + walk(a, b, i + 1, j),
            Step::OnlyB => seq![Pair { page_a: 0, page_b: (j + 1) as i32 }] + walk(a, b, i, j + 1),
        }
    }
}

/// The alignment of two documents' sheets.
pub open spec fn spec_match_sheets(a: Seq<Signature>, b: Seq<Signature>) -> Seq<Pair> {
    walk(sheet_sets(a), sheet_sets(b), 0, 0)
}

/// The larger of the candidates that are present.
fn better(have: bool, v: i64, c: i64) -> (r: i64)
    ensures
        r == (if !have || c > v { c } else { v }),
{
    if !have || c > v {
        c
    } else {
        v
    }
}

/// Matches two documents' sheets, in reading order.
///
/// Needleman-Wunsch rather than "best score wins": on a set with repeated
/// channel sheets the top two candidates for a sheet are both plausible, and
/// what separates them is that sheets come in an order. Greedy matching pairs
/// sheet 12 with sheet 15 and is never able to reconsider.
///
/// Returns one [`Pair`] per virtual sheet. A pair with one side 0 is a sheet
/// that exists in only one revision.
pub fn match_sheets(a: &[Signature], b: &[Signature]) -> (out: Vec<Pair>)
    requires
        a@.len() < i32::MAX,
        b@.len() < i32::MAX,
    ensures
        out@ == spec_match_sheets(a@, b@),
{
    let ghost sa = sheet_sets(a@);
    let ghost sb = sheet_sets(b@);
    let n = a.len();
    let m = b.len();
    if n == 0 && m == 0 {
        return Vec::new();
    }
    // rows[k] holds the scores of a[n - k..] against every b[j..].
    let mut rows: Vec<Vec<i64>> = Vec::new();
    let mut k: usize = 0;
    while k <= n
        invariant
            n == a@.len(),
            m == b@.len(),
            n < i32::MAX,
            m < i32::MAX,
            sa == sheet_sets(a@),
            sb == sheet_sets(b@),
            k <= n + 1,
            rows@.len() == k,
            forall|r: int| 0 <= r < k ==> #[trigger] rows@[r]@.len() == m + 1,
            forall|r: int, c: int|
                0 <= r < k && 0 <= c <= m ==> #[trigger] rows@[r]@[c] == best(sa, sb, n - r, c),
            forall|r: int, c: int|
                0 <= r < k && 0 <= c <= m ==> -1_000_000 * (r + m - c) <= #[trigger] rows@[r]@[c]
                    <= 1_000_000 * (r + m - c),
        decreases n + 1 - k,
    {
        let i = n - k;
        let mut row: Vec<i64> = Vec::new();
        let mut z: usize = 0;
        while z <= m
            invariant
                m < i32::MAX,
                z <= m + 1,
                row@.len() == z,
                forall|c: int| 0 <= c < z ==> row@[c] == 0,
            decreases m + 1 - z,
        {
            row.push(0);
            z = z + 1;
        }
        let mut jj: usize = 0;
        while jj <= m
            invariant
                n == a@.len(),
                m == b@.len(),
                n < i32::MAX,
                m < i32::MAX,
                sa == sheet_sets(a@),
                sb == sheet_sets(b@),
                k <= n,
                i == n - k,
                jj <= m + 1,
                rows@.len() == k,
                forall|r: int| 0 <= r < k ==> #[trigger] rows@[r]@.len() == m + 1,
                forall|r: int, c: int|
                    0 <= r < k && 0 <= c <= m ==> #[trigger] rows@[r]@[c] == best(sa, sb, n - r, c),
                forall|r: int, c: int|
                    0 <= r < k && 0 <= c <= m ==> -1_000_000 * (r + m - c) <= #[trigger] rows@[r]@[c]
                        <= 1_000_000 * (r + m - c),
                row@.len() == m + 1,
                forall|c: int| 0 <= c <= m - jj ==> row@[c] == 0,
                forall|c: int| m - jj < c <= m ==> #[trigger] row@[c] == best(sa, sb, i as int, c),
                forall|c: int|
                    m - jj < c <= m ==> -1_000_000 * (k + m - c) <= #[trigger] row@[c] <= 1_000_000 * (k
                        + m - c),
            decreases m + 1 - jj,
        {
            let j = m - jj;
            if !(i == n && j == m) {
                let mut v: i64 = 0;
                let mut have = false;
                if i < n && j < m {
                    let s = a[i].similarity(&b[j]);
                    proof {
                        assert(sa[i as int] == a@[i as int].tokens());
                        assert(sb[j as int] == b@[j as int].tokens());
                    }
                    let c = rows[k - 1][j + 1] + (s as i64 - MATCH_FLOOR + 2 * GAP);
                    v = c;
                    have = true;
                }
                if i < n {
                    let c = rows[k - 1][j] + GAP;
                    v = better(have, v, c);
                    have = true;
                }
                if j < m {
                    let c = row[j + 1] + GAP;
                    v = better(have, v, c);
                }
                row.set(j, v);
            }
            jj = jj + 1;
        }
        rows.push(row);
        k = k + 1;
    }
    // Walk the table back out into the pairing it stands for.
    let mut out: Vec<Pair> = Vec::new();
    let mut i: usize = 0;
    let mut j: usize = 0;
    while i < n || j < m
        invariant
            n == a@.len(),
            m == b@.len(),
            n < i32::MAX,
            m < i32::MAX,
            sa == sheet_sets(a@),
            sb == sheet_sets(b@),
            rows@.len() == n + 1,
            forall|r: int| 0 <= r <= n ==> #[trigger] rows@[r]@.len() == m + 1,
            forall|r: int, c: int|
                0 <= r <= n && 0 <= c <= m ==> #[trigger] rows@[r]@[c] == best(sa, sb, n - r, c),
            forall|r: int, c: int|
                0 <= r <= n && 0 <= c <= m ==> -1_000_000 * (r + m - c) <= #[trigger] rows@[r]@[c]
                    <= 1_000_000 * (r + m - c),
            i <= n,
            j <= m,
            out@ + walk(sa, sb, i as int, j as int) == walk(sa, sb, 0, 0),
        decreases n - i + m - j,
    {
        let ghost vboth = best(sa, sb, i + 1, j + 1) + pair_gain(sa, sb, i as int, j as int);
        let ghost va = best(sa, sb, i + 1, j as int) + GAP;
        let ghost vb = best(sa, sb, i as int, j + 1) + GAP;
        let mut both: i64 = 0;
        let mut take_a: i64 = 0;
        let mut take_b: i64 = 0;
        if i < n && j < m {
            let s = a[i].similarity(&b[j]);
            proof {
                assert(sa[i as int] == a@[i as int].tokens());
                assert(sb[j as int] == b@[j as int].tokens());
            }
            both = rows[n - i - 1][j + 1] + (s as i64 - MATCH_FLOOR + 2 * GAP);
        }
        if i < n {
            take_a = rows[n - i - 1][j] + GAP;
        }
        if j < m {
            take_b = rows[n - i][j + 1] + GAP;
        }
        proof {
            assert(step(sa, sb, i as int, j as int) == step(sa, sb, i as int, j as int));
        }
        let ghost w = walk(sa, sb, i as int, j as int);
        if i < n && j < m && both >= take_a && both >= take_b {
            proof {
                assert(step(sa, sb, i as int, j as int) == Step::Both);
                assert(out@.push(Pair { page_a: (i + 1) as i32, page_b: (j + 1) as i32 }) + walk(
                    sa,
                    sb,
                    i + 1,
                    j + 1,
                ) =~= out@ + w);
            }
            out.push(Pair { page_a: i as i32 + 1, page_b: j as i32 + 1 });
            i = i + 1;
            j = j + 1;
        } else if i < n && (j >= m || take_a >= take_b) {
            proof {
                assert(step(sa, sb, i as int, j as int) == Step::OnlyA);
                assert(out@.push(Pair { page_a: (i + 1) as i32, page_b: 0 }) + walk(
                    sa,
                    sb,
                    i + 1,
                    j as int,
                ) =~= out@ + w);
            }
            out.push(Pair { page_a: i as i32 + 1, page_b: 0 });
            i = i + 1;
        } else {
            proof {
                assert(step(sa, sb, i as int, j as int) == Step::OnlyB);
                assert(out@.push(Pair { page_a: 0, page_b: (j + 1) as i32 }) + walk(
                    sa,
                    sb,
                    i as int,
                    j + 1,
                ) =~= out@ + w);
            }
            out.push(Pair { page_a: 0, page_b: j as i32 + 1 });
            j = j + 1;
        }
    }
    proof {
        assert(walk(sa, sb, n as int, m as int) =~= Seq::<Pair>::empty());
        assert(out@ =~= out@ + walk(sa, sb, n as int, m as int));
    }
    out
}


/// The first document's pages named by a list of pairs, in order, leaving out
/// the pairs that have no sheet of it.
pub open spec fn pages_a(s: Seq<Pair>) -> Seq<int>
    decreases s.len(),
{
    if s.len() == 0 {
        Seq::empty()
    } else if s[0].page_a != 0 {
        seq![s[0].page_a as int] + pages_a(s.drop_first())
    } else {
        pages_a(s.drop_first())
    }
}

/// The second document's pages named by a list of pairs, in order.
pub open spec fn pages_b(s: Seq<Pair>) -> Seq<int>
    decreases s.len(),
{
    if s.len() == 0 {
        Seq::empty()
    } else if s[0].page_b != 0 {
        seq![s[0].page_b as int] + pages_b(s.drop_first())
    } else {
        pages_b(s.drop_first())
    }
}

/// The pages `from + 1` to `to`, in order.
pub open spec fn page_run(from: int, to: int) -> Seq<int> {
    Seq::new((to - from) as nat, |k: int| from + k + 1)
}

proof fn lemma_walk_covers(a: Seq<Set<Seq<char>>>, b: Seq<Set<Seq<char>>>, i: int, j: int)
    requires
        0 <= i <= a.len() < i32::MAX,
        0 <= j <= b.len() < i32::MAX,
    ensures
        pages_a(walk(a, b, i, j)) == page_run(i, a.len() as int),
        pages_b(walk(a, b, i, j)) == page_run(j, b.len() as int),
        forall|k: int|
            0 <= k < walk(a, b, i, j).len() ==> (#[trigger] walk(a, b, i, j)[k]).page_a != 0
                || walk(a, b, i, j)[k].page_b != 0,
    decreases rest(a, b, i, j),
{
    let w = walk(a, b, i, j);
    if i >= a.len() && j >= b.len() {
        assert(page_run(i, a.len() as int) =~= Seq::<int>::empty());
        assert(page_run(j, b.len() as int) =~= Seq::<int>::empty());
    } else {
        let (ni, nj) = match step(a, b, i, j) {
            Step::Both => (i + 1, j + 1),
            Step::OnlyA => (i + 1, j),
            Step::OnlyB => (i, j + 1),
        };
        lemma_walk_covers(a, b, ni, nj);
        let tail = walk(a, b, ni, nj);
        assert(w.drop_first() =~= tail);
        if ni == i + 1 {
            assert(page_run(i, a.len() as int) =~= seq![i + 1] + page_run(i + 1, a.len() as int));
        } else {
            assert(w[0].page_a == 0);
        }
        if nj == j + 1 {
            assert(page_run(j, b.len() as int) =~= seq![j + 1] + page_run(j + 1, b.len() as int));
        } else {
            assert(w[0].page_b == 0);
        }
        assert forall|k: int| 0 <= k < w.len() implies (#[trigger] w[k]).page_a != 0 || w[k].page_b != 0 by {
            if k > 0 {
                assert(w[k] == tail[k - 1]);
            }
        }
    }
}

/// Every sheet of each document shows up exactly once, in its own order, and
/// no virtual sheet is empty on both sides: the alignment hides nothing and
/// invents nothing.
pub proof fn law_matching_covers_every_sheet_once(a: Seq<Signature>, b: Seq<Signature>)
    requires
        a.len() < i32::MAX,
        b.len() < i32::MAX,
    ensures
        pages_a(spec_match_sheets(a, b)) == page_run(0, a.len() as int),
        pages_b(spec_match_sheets(a, b)) == page_run(0, b.len() as int),
        forall|k: int|
            0 <= k < spec_match_sheets(a, b).len() ==> (#[trigger] spec_match_sheets(a, b)[k]).page_a
                != 0 || spec_match_sheets(a, b)[k].page_b != 0,
{
    lemma_walk_covers(sheet_sets(a), sheet_sets(b), 0, 0);
}

/// A similarity never exceeds the full score.
proof fn lemma_jaccard_range(x: Set<Seq<char>>, y: Set<Seq<char>>)
    requires
        x.finite(),
        y.finite(),
    ensures
        0 <= jaccard(x, y) <= SIMILARITY_SCALE,
{
    if x.len() != 0 && y.len() != 0 {
        vstd::set_lib::lemma_len_intersect(x, y);
        vstd::set_lib::lemma_len_union_ind(x, y);
        let i = x.intersect(y).len() as int;
        let u = x.union(y).len() as int;
        assert(0 <= (i * 1_000_000) / u <= 1_000_000) by (nonlinear_arith)
            requires 0 <= i <= u, u > 0;
    }
}

/// A sheet that says anything scores full similarity with itself.
proof fn lemma_jaccard_self(x: Set<Seq<char>>)
    requires
        x.finite(),
        x.len() != 0,
    ensures
        jaccard(x, x) == SIMILARITY_SCALE,
{
    assert(x.intersect(x) =~= x);
    assert(x.union(x) =~= x);
    let l = x.len() as int;
    assert((l * 1_000_000) / l == 1_000_000) by (nonlinear_arith)
        requires l > 0;
}

/// What pairing two identical sheets that say anything adds to an alignment:
/// `SIMILARITY_SCALE - MATCH_FLOOR + 2 * GAP`.
pub open spec fn full_pair_gain() -> int {
    550_000
}

pub open spec fn abs_i(x: int) -> int {
    if x >= 0 {
        x
    } else {
        -x
    }
}

/// No alignment scores more than a full match for every sheet it can pair,
/// less a gap for every sheet that is left over.
proof fn lemma_best_upper(a: Seq<Set<Seq<char>>>, b: Seq<Set<Seq<char>>>, i: int, j: int)
    requires
        0 <= i <= a.len(),
        0 <= j <= b.len(),
        forall|k: int| 0 <= k < a.len() ==> (#[trigger] a[k]).finite(),
        forall|k: int| 0 <= k < b.len() ==> (#[trigger] b[k]).finite(),
    ensures
        best(a, b, i, j) <= full_pair_gain() * min_i(a.len() - i, b.len() - j) + GAP
            * abs_i((a.len() - i) - (b.len() - j)),
    decreases rest(a, b, i, j),
{
    if i >= a.len() && j >= b.len() {
    } else if i >= a.len() {
        lemma_best_upper(a, b, i, j + 1);
    } else if j >= b.len() {
        lemma_best_upper(a, b, i + 1, j);
    } else {
        lemma_best_upper(a, b, i + 1, j + 1);
        lemma_best_upper(a, b, i + 1, j);
        lemma_best_upper(a, b, i, j + 1);
        lemma_jaccard_range(a[i], b[j]);
        assert(pair_gain(a, b, i, j) <= full_pair_gain());
    }
}

/// Matching a sheet list against itself from `(i, i)` on scores a full match
/// for every sheet, and pairs every sheet with itself.
proof fn lemma_self_walk(a: Seq<Set<Seq<char>>>, i: int)
    requires
        0 <= i <= a.len() < i32::MAX,
        forall|k: int| 0 <= k < a.len() ==> (#[trigger] a[k]).finite() && a[k].len() != 0,
    ensures
        best(a, a, i, i) == full_pair_gain() * (a.len() - i),
        walk(a, a, i, i) == Seq::new(
            (a.len() - i) as nat,
            |k: int| Pair { page_a: (i + k + 1) as i32, page_b: (i + k + 1) as i32 },
        ),
    decreases a.len() - i,
{
    let full = Seq::new(
        (a.len() - i) as nat,
        |k: int| Pair { page_a: (i + k + 1) as i32, page_b: (i + k + 1) as i32 },
    );
    if i == a.len() {
        assert(walk(a, a, i, i) =~= full);
    } else {
        lemma_self_walk(a, i + 1);
        lemma_jaccard_self(a[i]);
        lemma_best_upper(a, a, i + 1, i);
        lemma_best_upper(a, a, i, i + 1);
        assert(step(a, a, i, i) == Step::Both);
        let tail = walk(a, a, i + 1, i + 1);
        assert(walk(a, a, i, i) =~= full) by {
            assert(walk(a, a, i, i) == seq![Pair { page_a: (i + 1) as i32, page_b: (i + 1) as i32 }]
                + tail);
        }
    }
}

/// Matching a document against itself pairs every sheet with itself, where
/// every sheet has some text: no near-duplicate sheet is ever paired with its
/// neighbour.
pub proof fn law_self_match_is_identity(a: Seq<Signature>)
    requires
        a.len() < i32::MAX,
        forall|k: int| 0 <= k < a.len() ==> (#[trigger] a[k]).tokens().len() != 0,
    ensures
        spec_match_sheets(a, a) == Seq::new(
            a.len(),
            |k: int| Pair { page_a: (k + 1) as i32, page_b: (k + 1) as i32 },
        ),
{
    let s = sheet_sets(a);
    assert forall|k: int| 0 <= k < s.len() implies (#[trigger] s[k]).finite() && s[k].len() != 0 by {
        a[k].lemma_tokens_finite();
    }
    lemma_self_walk(s, 0);
    assert(spec_match_sheets(a, a) =~= Seq::new(
        a.len(),
        |k: int| Pair { page_a: (k + 1) as i32, page_b: (k + 1) as i32 },
    ));
}

/// A list of pairs none of which is empty on both sides is no longer than the
/// pages it names.
pub(crate) proof fn lemma_pair_count(s: Seq<Pair>)
    requires
        forall|k: int| 0 <= k < s.len() ==> (#[trigger] s[k]).page_a != 0 || s[k].page_b != 0,
    ensures
        s.len() <= pages_a(s).len() + pages_b(s).len(),
    decreases s.len(),
{
    if s.len() > 0 {
        assert forall|k: int| 0 <= k < s.drop_first().len() implies (#[trigger] s.drop_first()[k]).page_a
            != 0 || s.drop_first()[k].page_b != 0 by {
            assert(s.drop_first()[k] == s[k + 1]);
        }
        lemma_pair_count(s.drop_first());
        assert(s[0].page_a != 0 || s[0].page_b != 0);
    }
}

/// Where no two sheets reach the floor, the best alignment leaves every sheet
/// alone.
proof fn lemma_best_all_gaps(a: Seq<Set<Seq<char>>>, b: Seq<Set<Seq<char>>>, i: int, j: int)
    requires
        0 <= i <= a.len(),
        0 <= j <= b.len(),
        forall|x: int, y: int| 0 <= x < a.len() && 0 <= y < b.len() ==> #[trigger] jaccard(a[x], b[y]) < MATCH_FLOOR,
    ensures
        best(a, b, i, j) == GAP * ((a.len() - i) + (b.len() - j)),
    decreases rest(a, b, i, j),
{
    if i >= a.len() && j >= b.len() {
    } else if i >= a.len() {
        lemma_best_all_gaps(a, b, i, j + 1);
    } else if j >= b.len() {
        lemma_best_all_gaps(a, b, i + 1, j);
    } else {
        lemma_best_all_gaps(a, b, i + 1, j + 1);
        lemma_best_all_gaps(a, b, i + 1, j);
        lemma_best_all_gaps(a, b, i, j + 1);
        assert(jaccard(a[i], b[j]) < MATCH_FLOOR);
    }
}

proof fn lemma_walk_no_pairs(a: Seq<Set<Seq<char>>>, b: Seq<Set<Seq<char>>>, i: int, j: int)
    requires
        0 <= i <= a.len(),
        0 <= j <= b.len(),
        forall|x: int, y: int| 0 <= x < a.len() && 0 <= y < b.len() ==> #[trigger] jaccard(a[x], b[y]) < MATCH_FLOOR,
    ensures
        forall|k: int|
            0 <= k < walk(a, b, i, j).len() ==> (#[trigger] walk(a, b, i, j)[k]).page_a == 0 || walk(
                a,
                b,
                i,
                j,
            )[k].page_b == 0,
    decreases rest(a, b, i, j),
{
    let w = walk(a, b, i, j);
    if !(i >= a.len() && j >= b.len()) {
        if i < a.len() && j < b.len() {
            lemma_best_all_gaps(a, b, i + 1, j + 1);
            lemma_best_all_gaps(a, b, i + 1, j);
            assert(jaccard(a[i], b[j]) < MATCH_FLOOR);
        }
        assert(step(a, b, i, j) != Step::Both);
        let (ni, nj) = match step(a, b, i, j) {
            Step::Both => (i + 1, j + 1),
            Step::OnlyA => (i + 1, j),
            Step::OnlyB => (i, j + 1),
        };
        lemma_walk_no_pairs(a, b, ni, nj);
        let tail = walk(a, b, ni, nj);
        assert forall|k: int| 0 <= k < w.len() implies (#[trigger] w[k]).page_a == 0 || w[k].page_b == 0 by {
            if k > 0 {
                assert(w[k] == tail[k - 1]);
            }
        }
    }
}

/// Below the floor a pair is worse than leaving both sheets unmatched: where
/// no sheet of one document reaches `MATCH_FLOOR` with any sheet of the other
/// (as when they share no token at all), every sheet is shown as removed or
/// added, none as paired.
pub proof fn law_below_the_floor_is_never_paired(a: Seq<Signature>, b: Seq<Signature>)
    requires
        forall|x: int, y: int| 0 <= x < a.len() && 0 <= y < b.len() ==> #[trigger] jaccard(a[x].tokens(), b[y].tokens()) < MATCH_FLOOR,
    ensures
        forall|k: int|
            0 <= k < spec_match_sheets(a, b).len() ==> (#[trigger] spec_match_sheets(a, b)[k]).page_a == 0
                || spec_match_sheets(a, b)[k].page_b == 0,
{
    let sa = sheet_sets(a);
    let sb = sheet_sets(b);
    assert forall|x: int, y: int| 0 <= x < sa.len() && 0 <= y < sb.len() implies #[trigger] jaccard(sa[x], sb[y]) < MATCH_FLOOR by {
        assert(jaccard(a[x].tokens(), b[y].tokens()) < MATCH_FLOOR);
    }
    lemma_walk_no_pairs(sa, sb, 0, 0);
}

} // verus!
