//! What the background sweep over every sheet reports, and what it offers to
//! exclude once it is done.

use vstd::prelude::*;

use crate::geom::PageRect;
use crate::scan::SheetChanges;

verus! {

/// What the frontend reads. Every field is meaningless until `finished`, except
/// `scanned` and `total`, which are there to fill a progress line.
#[derive(Clone, Copy, PartialEq, Eq, Debug, Default, Structural)]
pub struct SweepStatus {
    pub running: bool,
    /// The sweep reached the end. The summary below only means anything once
    /// this is true.
    pub finished: bool,
    pub scanned: i32,
    pub total: i32,
    pub changed_sheets: i32,
}

impl SweepStatus {
    /// A sweep of `total` sheets that has just started.
    pub fn started(total: i32) -> (s: Self)
        ensures
            s == (SweepStatus { running: true, finished: false, scanned: 0, total, changed_sheets: 0 }),
    {
        SweepStatus { running: true, finished: false, scanned: 0, total, changed_sheets: 0 }
    }

    /// Counts one sheet whose scan came back: `result` is `None` for a sheet
    /// that could not be scanned, which is skipped rather than counted.
    pub fn record(&mut self, result: Option<&SheetChanges>)
        requires
            old(self).scanned < i32::MAX,
            old(self).changed_sheets <= old(self).scanned,
        ensures
            final(self).running == old(self).running,
            final(self).finished == old(self).finished,
            final(self).total == old(self).total,
            final(self).scanned == old(self).scanned + if result is Some {
                1int
            } else {
                0int
            },
            final(self).changed_sheets == old(self).changed_sheets + if result matches Some(r) && r.changes@.len()
                > 0 {
                1int
            } else {
                0int
            },
            final(self).changed_sheets <= final(self).scanned,
    {
        if let Some(r) = result {
            self.scanned = self.scanned + 1;
            if r.changes.len() > 0 {
                self.changed_sheets = self.changed_sheets + 1;
            }
        }
    }

    /// The sweep is over. `finished` and `running` move together, so a
    /// frontend that checks `finished` on the wakeup that announces it sees it.
    pub fn finish(&mut self)
        ensures
            final(self).finished,
            !final(self).running,
            final(self).scanned == old(self).scanned,
            final(self).total == old(self).total,
            final(self).changed_sheets == old(self).changed_sheets,
    {
        self.finished = true;
        self.running = false;
    }
}

/// How near two boxes' corners have to be across a row to count as the same
/// place, in thousandths of a point.
///
/// A drawing frame is built in rows: a title-block field sits at a fixed y on
/// every sheet, and what varies is how far along that row the characters that
/// differ happen to fall. Tight in y, loose in x, is what that shape asks for.
pub const SAME_ROW: i32 = 8_000;

/// How near two boxes' corners have to be along a row to count as the same
/// place, in thousandths of a point.
pub const SAME_AREA: i32 = 32_000;

/// How much a suggestion reaches past the box it came from on every edge, in
/// thousandths of a point, so it covers the whole field rather than only the
/// characters that happened to differ on one sheet.
pub const SUGGESTION_SLACK: i32 = 4_000;

/// Enough for a title block's fields; past this the reader is being asked to
/// work through a list rather than accept a suggestion.
pub const MAX_SUGGESTIONS: usize = 8;

/// Two boxes are in the same place: their corners are within `SAME_AREA`
/// along the row and `SAME_ROW` across it.
pub open spec fn same_place(a: PageRect, b: PageRect) -> bool {
    &&& -SAME_AREA <= a.x - b.x <= SAME_AREA
    &&& -SAME_ROW <= a.y - b.y <= SAME_ROW
}

/// Some box of `boxes` is in the same place as `b`.
pub open spec fn near_any(boxes: Seq<PageRect>, b: PageRect) -> bool {
    exists|k: int| 0 <= k < boxes.len() && same_place(#[trigger] boxes[k], b)
}

/// How many of the first `m` sheets, other than sheet `i`, have a change in
/// the same place as `b`.
pub open spec fn recurs_on(results: Seq<SheetChanges>, i: int, b: PageRect, m: int) -> int
    decreases m,
{
    if m <= 0 {
        0
    } else {
        recurs_on(results, i, b, m - 1) + if m - 1 != i && near_any(results[m - 1].changes@, b) {
            1int
        } else {
            0int
        }
    }
}

/// A box grown by the suggestion slack.
pub open spec fn grown(b: PageRect) -> PageRect {
    PageRect {
        x: (b.x - SUGGESTION_SLACK) as i32,
        y: (b.y - SUGGESTION_SLACK) as i32,
        dx: (b.dx + 2 * SUGGESTION_SLACK) as i32,
        dy: (b.dy + 2 * SUGGESTION_SLACK) as i32,
    }
}

/// A box can be grown by the slack.
pub open spec fn grow_fits(b: PageRect) -> bool {
    &&& i32::MIN + SUGGESTION_SLACK <= b.x
    &&& i32::MIN + SUGGESTION_SLACK <= b.y
    &&& b.dx <= i32::MAX - 2 * SUGGESTION_SLACK
    &&& b.dy <= i32::MAX - 2 * SUGGESTION_SLACK
}

/// The suggestions after considering change `b` of sheet `i`: it is offered
/// when it recurs on at least `threshold` other sheets and nothing offered so
/// far is in the same place, until there are `MAX_SUGGESTIONS`.
pub open spec fn suggest_step(results: Seq<SheetChanges>, threshold: int, out: Seq<PageRect>, i: int, b: PageRect) -> Seq<
    PageRect,
> {
    if out.len() >= MAX_SUGGESTIONS {
        out
    } else if recurs_on(results, i, b, results.len() as int) >= threshold && !near_any(out, b) {
        out.push(grown(b))
    } else {
        out
    }
}

/// The suggestions after the first `k` changes of sheet `i`.
pub open spec fn suggest_in_sheet(results: Seq<SheetChanges>, threshold: int, out: Seq<PageRect>, i: int, k: int) -> Seq<
    PageRect,
>
    decreases k,
{
    if k <= 0 {
        out
    } else {
        suggest_step(
            results,
            threshold,
            suggest_in_sheet(results, threshold, out, i, k - 1),
            i,
            results[i].changes@[k - 1],
        )
    }
}

/// The suggestions after the first `n` sheets.
pub open spec fn suggest_upto(results: Seq<SheetChanges>, threshold: int, n: int) -> Seq<PageRect>
    decreases n,
{
    if n <= 0 {
        Seq::empty()
    } else {
        suggest_in_sheet(
            results,
            threshold,
            suggest_upto(results, threshold, n - 1),
            n - 1,
            results[n - 1].changes@.len() as int,
        )
    }
}

/// How many sheets a change has to recur on to be offered: half the set, and
/// never fewer than three.
pub open spec fn threshold_for(sheets: int) -> int {
    if (sheets + 1) / 2 > 3 {
        (sheets + 1) / 2
    } else {
        3
    }
}

/// Regions whose changes recur across the set, offered as something to
/// exclude; nothing for a set of fewer than four sheets, or a sweep that has
/// not finished.
pub open spec fn spec_suggest_ignores(results: Seq<SheetChanges>, sheets: int) -> Seq<PageRect> {
    if sheets < 4 || results.len() < sheets {
        Seq::empty()
    } else {
        suggest_upto(results, threshold_for(sheets), results.len() as int)
    }
}

fn same_place_exec(a: &PageRect, b: &PageRect) -> (r: bool)
    ensures
        r == same_place(*a, *b),
{
    let dx = a.x as i64 - b.x as i64;
    let dy = a.y as i64 - b.y as i64;
    -(SAME_AREA as i64) <= dx && dx <= SAME_AREA as i64 && -(SAME_ROW as i64) <= dy && dy <= SAME_ROW as i64
}

fn near_any_exec(boxes: &Vec<PageRect>, b: &PageRect) -> (r: bool)
    ensures
        r == near_any(boxes@, *b),
{
    let mut i: usize = 0;
    while i < boxes.len()
        invariant
            i <= boxes@.len(),
            forall|k: int| 0 <= k < i ==> !same_place(#[trigger] boxes@[k], *b),
        decreases boxes@.len() - i,
    {
        if same_place_exec(&boxes[i], b) {
            return true;
        }
        i = i + 1;
    }
    false
}

proof fn lemma_recurs_bound(results: Seq<SheetChanges>, i: int, b: PageRect, m: int)
    requires
        m >= 0,
    ensures
        0 <= recurs_on(results, i, b, m) <= m,
    decreases m,
{
    if m > 0 {
        lemma_recurs_bound(results, i, b, m - 1);
    }
}

/// Once full, the suggestions stay as they are through a sheet.
proof fn lemma_full_in_sheet(results: Seq<SheetChanges>, threshold: int, out: Seq<PageRect>, i: int, k: int)
    requires
        out.len() >= MAX_SUGGESTIONS,
    ensures
        suggest_in_sheet(results, threshold, out, i, k) == out,
    decreases k,
{
    if k > 0 {
        lemma_full_in_sheet(results, threshold, out, i, k - 1);
    }
}

/// Once full, the suggestions stay as they are through the rest of the set.
proof fn lemma_full_upto(results: Seq<SheetChanges>, threshold: int, n0: int, n: int)
    requires
        0 <= n0 <= n,
        suggest_upto(results, threshold, n0).len() >= MAX_SUGGESTIONS,
    ensures
        suggest_upto(results, threshold, n) == suggest_upto(results, threshold, n0),
    decreases n - n0,
{
    if n > n0 {
        lemma_full_upto(results, threshold, n0, n - 1);
        lemma_full_in_sheet(
            results,
            threshold,
            suggest_upto(results, threshold, n - 1),
            n - 1,
            results[n - 1].changes@.len() as int,
        );
    }
}

/// Regions whose changes recur across the set, offered as something to
/// exclude.
///
/// A drawing set shares a title block, so a changed date colours every sheet.
/// This finds that, but it only ever *offers*: a net renamed across the whole
/// set looks identical to a heuristic, and silently discounting it would be
/// the worst failure this tool could have.
///
/// Matching is on how close two boxes' corners are, not on which cell of a
/// grid they fall in: a grid splits neighbours that happen to straddle a
/// boundary.
pub fn suggest_ignores(results: &[SheetChanges], sheets: i32) -> (out: Vec<PageRect>)
    requires
        sheets >= 4 && results@.len() >= sheets ==> results@.len() <= i32::MAX,
        sheets >= 4 && results@.len() >= sheets ==> forall|i: int, k: int|
            0 <= i < results@.len() && 0 <= k < results@[i].changes@.len() ==> #[trigger] grow_fits(
                results@[i].changes@[k],
            ),
    ensures
        out@ == spec_suggest_ignores(results@, sheets as int),
{
    // Too few sheets for "recurring" to mean anything, or a sweep that has not
    // finished: a partial answer here would offer to hide whatever happened to
    // be scanned first.
    if sheets < 4 || results.len() < sheets as usize {
        return Vec::new();
    }
    // Half the set, and never fewer than three.
    let half = sheets / 2 + sheets % 2;
    let threshold: i32 = if half > 3 {
        half
    } else {
        3
    };
    let ghost rs = results@;
    let ghost thr = threshold as int;
    let n = results.len();
    let mut out: Vec<PageRect> = Vec::new();
    let mut i: usize = 0;
    while i < n
        invariant
            rs == results@,
            n == rs.len(),
            n <= i32::MAX,
            thr == threshold,
            thr == threshold_for(sheets as int),
            !(sheets < 4 || rs.len() < sheets),
            forall|a: int, k: int|
                0 <= a < rs.len() && 0 <= k < rs[a].changes@.len() ==> #[trigger] grow_fits(rs[a].changes@[k]),
            i <= n,
            out@ == suggest_upto(rs, thr, i as int),
            out@.len() < MAX_SUGGESTIONS,
        decreases n - i,
    {
        let sheet = &results[i];
        let nb = sheet.changes.len();
        let ghost before = out@;
        let mut k: usize = 0;
        while k < nb
            invariant
                rs == results@,
                n == rs.len(),
                n <= i32::MAX,
                thr == threshold,
                thr == threshold_for(sheets as int),
                !(sheets < 4 || rs.len() < sheets),
                forall|a: int, kk: int|
                    0 <= a < rs.len() && 0 <= kk < rs[a].changes@.len() ==> #[trigger] grow_fits(rs[a].changes@[kk]),
                i < n,
                *sheet == rs[i as int],
                nb == sheet.changes@.len(),
                k <= nb,
                before == suggest_upto(rs, thr, i as int),
                out@ == suggest_in_sheet(rs, thr, before, i as int, k as int),
                out@.len() < MAX_SUGGESTIONS,
            decreases nb - k,
        {
            let b = &sheet.changes[k];
            let ghost cur = out@;
            // How many other sheets have a change in the same place.
            let mut on_others: i32 = 0;
            let mut j: usize = 0;
            while j < n
                invariant
                    rs == results@,
                    n == rs.len(),
                    n <= i32::MAX,
                    j <= n,
                    on_others == recurs_on(rs, i as int, *b, j as int),
                    0 <= on_others <= j,
                decreases n - j,
            {
                if j != i && near_any_exec(&results[j].changes, b) {
                    on_others = on_others + 1;
                }
                j = j + 1;
            }
            if on_others >= threshold && !near_any_exec(&out, b) {
                proof {
                    assert(grow_fits(rs[i as int].changes@[k as int]));
                }
                out.push(
                    PageRect::new(
                        b.x - SUGGESTION_SLACK,
                        b.y - SUGGESTION_SLACK,
                        b.dx + 2 * SUGGESTION_SLACK,
                        b.dy + 2 * SUGGESTION_SLACK,
                    ),
                );
                if out.len() >= MAX_SUGGESTIONS {
                    proof {
                        assert(out@ == suggest_in_sheet(rs, thr, before, i as int, k + 1));
                        lemma_full_in_sheet(rs, thr, out@, i as int, 0);
                        assert(out@ == suggest_upto(rs, thr, i as int + 1)) by {
                            lemma_full_in_sheet_from(rs, thr, before, i as int, k as int + 1, nb as int);
                        }
                        lemma_full_upto(rs, thr, i as int + 1, n as int);
                    }
                    return out;
                }
            }
            k = k + 1;
        }
        i = i + 1;
    }
    out
}

/// Once full partway through a sheet, the rest of the sheet changes nothing.
proof fn lemma_full_in_sheet_from(
    results: Seq<SheetChanges>,
    threshold: int,
    out: Seq<PageRect>,
    i: int,
    k0: int,
    k: int,
)
    requires
        0 <= k0 <= k,
        suggest_in_sheet(results, threshold, out, i, k0).len() >= MAX_SUGGESTIONS,
    ensures
        suggest_in_sheet(results, threshold, out, i, k) == suggest_in_sheet(results, threshold, out, i, k0),
    decreases k - k0,
{
    if k > k0 {
        lemma_full_in_sheet_from(results, threshold, out, i, k0, k - 1);
    }
}

/// Every suggestion is a change, grown by the slack, that recurs on at least
/// the threshold's worth of other sheets; there are never more than
/// `MAX_SUGGESTIONS`; and nothing is offered for a set of fewer than four
/// sheets or a sweep that has not covered the set.
pub proof fn law_suggestions_only_recurring_changes(results: Seq<SheetChanges>, sheets: int)
    ensures
        spec_suggest_ignores(results, sheets).len() <= MAX_SUGGESTIONS,
        (sheets < 4 || results.len() < sheets) ==> spec_suggest_ignores(results, sheets).len() == 0,
        forall|s: int|
            0 <= s < spec_suggest_ignores(results, sheets).len() ==> exists|i: int, k: int|
                0 <= i < results.len() && 0 <= k < results[i].changes@.len() && recurs_on(
                    results,
                    i,
                    results[i].changes@[k],
                    results.len() as int,
                ) >= threshold_for(sheets) && #[trigger] spec_suggest_ignores(results, sheets)[s] == grown(
                    results[i].changes@[k],
                ),
{
    if !(sheets < 4 || results.len() < sheets) {
        let out = suggest_upto(results, threshold_for(sheets), results.len() as int);
        lemma_upto_recurring(results, threshold_for(sheets), results.len() as int);
        assert(spec_suggest_ignores(results, sheets) == out);
        assert forall|s: int| 0 <= s < out.len() implies exists|i: int, k: int|
            0 <= i < results.len() && 0 <= k < results[i].changes@.len() && recurs_on(
                results,
                i,
                results[i].changes@[k],
                results.len() as int,
            ) >= threshold_for(sheets) && #[trigger] out[s] == grown(results[i].changes@[k]) by {
            assert(out[s] == out[s]);
        }
    }
}

/// What the suggestions hold after the first `n` sheets.
pub open spec fn only_recurring(results: Seq<SheetChanges>, threshold: int, out: Seq<PageRect>) -> bool {
    &&& out.len() <= MAX_SUGGESTIONS
    &&& forall|s: int|
        0 <= s < out.len() ==> exists|i: int, k: int|
            0 <= i < results.len() && 0 <= k < results[i].changes@.len() && recurs_on(
                results,
                i,
                results[i].changes@[k],
                results.len() as int,
            ) >= threshold && #[trigger] out[s] == grown(results[i].changes@[k])
}

proof fn lemma_in_sheet_recurring(results: Seq<SheetChanges>, threshold: int, out: Seq<PageRect>, i: int, k: int)
    requires
        0 <= i < results.len(),
        0 <= k <= results[i].changes@.len(),
        only_recurring(results, threshold, out),
    ensures
        only_recurring(results, threshold, suggest_in_sheet(results, threshold, out, i, k)),
    decreases k,
{
    if k > 0 {
        lemma_in_sheet_recurring(results, threshold, out, i, k - 1);
        let prev = suggest_in_sheet(results, threshold, out, i, k - 1);
        let b = results[i].changes@[k - 1];
        let next = suggest_in_sheet(results, threshold, out, i, k);
        if next.len() > prev.len() {
            assert forall|s: int| 0 <= s < next.len() implies exists|i2: int, k2: int|
                0 <= i2 < results.len() && 0 <= k2 < results[i2].changes@.len() && recurs_on(
                    results,
                    i2,
                    results[i2].changes@[k2],
                    results.len() as int,
                ) >= threshold && #[trigger] next[s] == grown(results[i2].changes@[k2]) by {
                if s < prev.len() {
                    assert(next[s] == prev[s]);
                } else {
                    assert(next[s] == grown(b));
                    assert(results[i].changes@[k - 1] == b);
                }
            }
        }
    }
}

proof fn lemma_upto_recurring(results: Seq<SheetChanges>, threshold: int, n: int)
    requires
        0 <= n <= results.len(),
    ensures
        only_recurring(results, threshold, suggest_upto(results, threshold, n)),
    decreases n,
{
    if n > 0 {
        lemma_upto_recurring(results, threshold, n - 1);
        lemma_in_sheet_recurring(
            results,
            threshold,
            suggest_upto(results, threshold, n - 1),
            n - 1,
            results[n - 1].changes@.len() as int,
        );
    }
}

/// How many of the first `m` sheets, other than sheet `i`, have a change whose
/// corner lies within `SAME_AREA` of `b`'s along the row and within `SAME_ROW`
/// of it across the row.
pub open spec fn sheets_near(results: Seq<SheetChanges>, i: int, b: PageRect, m: int) -> int
    decreases m,
{
    if m <= 0 {
        0
    } else {
        sheets_near(results, i, b, m - 1) + if m - 1 != i && exists|k: int|
            0 <= k < results[m - 1].changes@.len() && -SAME_AREA <= #[trigger] results[m - 1].changes@[k].x - b.x
                <= SAME_AREA && -SAME_ROW <= results[m - 1].changes@[k].y - b.y <= SAME_ROW {
            1int
        } else {
            0int
        }
    }
}

proof fn lemma_sheets_near(results: Seq<SheetChanges>, i: int, b: PageRect, m: int)
    ensures
        sheets_near(results, i, b, m) == recurs_on(results, i, b, m),
    decreases m,
{
    if m > 0 {
        lemma_sheets_near(results, i, b, m - 1);
        let cs = results[m - 1].changes@;
        if near_any(cs, b) {
            let k = choose|k: int| 0 <= k < cs.len() && same_place(#[trigger] cs[k], b);
            assert(-SAME_AREA <= cs[k].x - b.x <= SAME_AREA && -SAME_ROW <= cs[k].y - b.y <= SAME_ROW);
        }
        if exists|k: int|
            0 <= k < cs.len() && -SAME_AREA <= #[trigger] cs[k].x - b.x <= SAME_AREA && -SAME_ROW <= cs[k].y
                - b.y <= SAME_ROW {
            let k = choose|k: int|
                0 <= k < cs.len() && -SAME_AREA <= #[trigger] cs[k].x - b.x <= SAME_AREA && -SAME_ROW <= cs[k].y
                    - b.y <= SAME_ROW;
            assert(same_place(cs[k], b));
        }
    }
}

proof fn lemma_in_sheet_prefix(results: Seq<SheetChanges>, threshold: int, out: Seq<PageRect>, i: int, k1: int, k2: int)
    requires
        0 <= k1 <= k2,
    ensures
        suggest_in_sheet(results, threshold, out, i, k1).len() <= suggest_in_sheet(results, threshold, out, i, k2).len(),
        forall|q: int| 0 <= q < suggest_in_sheet(results, threshold, out, i, k1).len() ==> #[trigger] suggest_in_sheet(
            results,
            threshold,
            out,
            i,
            k2,
        )[q] == suggest_in_sheet(results, threshold, out, i, k1)[q],
    decreases k2,
{
    if k2 > k1 {
        lemma_in_sheet_prefix(results, threshold, out, i, k1, k2 - 1);
    }
}

proof fn lemma_upto_prefix(results: Seq<SheetChanges>, threshold: int, n1: int, n2: int)
    requires
        0 <= n1 <= n2 <= results.len(),
    ensures
        suggest_upto(results, threshold, n1).len() <= suggest_upto(results, threshold, n2).len(),
        forall|q: int| 0 <= q < suggest_upto(results, threshold, n1).len() ==> #[trigger] suggest_upto(
            results,
            threshold,
            n2,
        )[q] == suggest_upto(results, threshold, n1)[q],
    decreases n2,
{
    if n2 > n1 {
        lemma_upto_prefix(results, threshold, n1, n2 - 1);
        let prev = suggest_upto(results, threshold, n2 - 1);
        lemma_in_sheet_prefix(results, threshold, prev, n2 - 1, 0, results[n2 - 1].changes@.len() as int);
    }
}

/// Once change `k` of sheet `i` has been considered, and where it recurs, the
/// suggestions are full or hold one in its place; and so they do at the end.
proof fn lemma_recurring_is_covered(results: Seq<SheetChanges>, threshold: int, i: int, k: int)
    requires
        0 <= i < results.len(),
        0 <= k < results[i].changes@.len(),
        grow_fits(results[i].changes@[k]),
        recurs_on(results, i, results[i].changes@[k], results.len() as int) >= threshold,
    ensures
        ({
            let out = suggest_upto(results, threshold, results.len() as int);
            out.len() >= MAX_SUGGESTIONS || near_any(out, results[i].changes@[k])
        }),
{
    let b = results[i].changes@[k];
    let base = suggest_upto(results, threshold, i);
    let before = suggest_in_sheet(results, threshold, base, i, k);
    let after = suggest_in_sheet(results, threshold, base, i, k + 1);
    assert(after == suggest_step(results, threshold, before, i, b));
    if before.len() < MAX_SUGGESTIONS && !near_any(before, b) {
        assert(after == before.push(grown(b)));
        assert(same_place(after[before.len() as int], b));
        assert(near_any(after, b));
    }
    let whole = suggest_in_sheet(results, threshold, base, i, results[i].changes@.len() as int);
    lemma_in_sheet_prefix(results, threshold, base, i, k + 1, results[i].changes@.len() as int);
    assert(whole == suggest_upto(results, threshold, i + 1));
    lemma_upto_prefix(results, threshold, i + 1, results.len() as int);
    let out = suggest_upto(results, threshold, results.len() as int);
    if near_any(after, b) {
        let q = choose|q: int| 0 <= q < after.len() && same_place(#[trigger] after[q], b);
        assert(whole[q] == after[q]);
        assert(out[q] == whole[q]);
        assert(same_place(out[q], b));
    }
}

/// A recurring change is never passed over: when a change has one within
/// `SAME_AREA` along the row and `SAME_ROW` across it on as many other sheets
/// as the threshold asks (half the set, and at least three), then unless the
/// suggestions are already full, one of them lies within that distance of it.
pub proof fn law_a_recurring_change_is_offered(results: Seq<SheetChanges>, sheets: int, i: int, k: int)
    requires
        sheets >= 4,
        results.len() >= sheets,
        0 <= i < results.len(),
        0 <= k < results[i].changes@.len(),
        grow_fits(results[i].changes@[k]),
        sheets_near(results, i, results[i].changes@[k], results.len() as int) >= 3,
        sheets_near(results, i, results[i].changes@[k], results.len() as int) >= (sheets + 1) / 2,
        spec_suggest_ignores(results, sheets).len() < MAX_SUGGESTIONS,
    ensures
        exists|q: int|
            0 <= q < spec_suggest_ignores(results, sheets).len() && -SAME_AREA <= #[trigger] spec_suggest_ignores(
                results,
                sheets,
            )[q].x - results[i].changes@[k].x <= SAME_AREA && -SAME_ROW <= spec_suggest_ignores(results, sheets)[q].y
                - results[i].changes@[k].y <= SAME_ROW,
{
    let b = results[i].changes@[k];
    lemma_sheets_near(results, i, b, results.len() as int);
    lemma_recurring_is_covered(results, threshold_for(sheets), i, k);
    let out = spec_suggest_ignores(results, sheets);
    let q = choose|q: int| 0 <= q < out.len() && same_place(#[trigger] out[q], b);
    assert(-SAME_AREA <= out[q].x - b.x <= SAME_AREA && -SAME_ROW <= out[q].y - b.y <= SAME_ROW);
}

/// Nothing is offered that does not recur in place: every suggestion is a
/// change grown by the slack on every edge, and that change has one within
/// `SAME_AREA` along the row and `SAME_ROW` across it on at least half the
/// other sheets of the set, and on at least three.
pub proof fn law_offered_only_where_it_recurs_in_place(results: Seq<SheetChanges>, sheets: int)
    requires
        forall|i: int, k: int|
            0 <= i < results.len() && 0 <= k < results[i].changes@.len() ==> #[trigger] grow_fits(
                results[i].changes@[k],
            ),
    ensures
        forall|s: int|
            0 <= s < spec_suggest_ignores(results, sheets).len() ==> exists|i: int, k: int|
                0 <= i < results.len() && 0 <= k < results[i].changes@.len() && #[trigger] spec_suggest_ignores(
                    results,
                    sheets,
                )[s].x == results[i].changes@[k].x - SUGGESTION_SLACK && spec_suggest_ignores(results, sheets)[s].y
                    == results[i].changes@[k].y - SUGGESTION_SLACK && spec_suggest_ignores(results, sheets)[s].dx
                    == results[i].changes@[k].dx + 2 * SUGGESTION_SLACK && spec_suggest_ignores(results, sheets)[s].dy
                    == results[i].changes@[k].dy + 2 * SUGGESTION_SLACK && sheets_near(
                    results,
                    i,
                    results[i].changes@[k],
                    results.len() as int,
                ) >= 3 && sheets_near(results, i, results[i].changes@[k], results.len() as int) >= (sheets + 1) / 2,
{
    law_suggestions_only_recurring_changes(results, sheets);
    let out = spec_suggest_ignores(results, sheets);
    assert forall|s: int| 0 <= s < out.len() implies exists|i: int, k: int|
        0 <= i < results.len() && 0 <= k < results[i].changes@.len() && #[trigger] out[s].x
            == results[i].changes@[k].x - SUGGESTION_SLACK && out[s].y == results[i].changes@[k].y - SUGGESTION_SLACK
            && out[s].dx == results[i].changes@[k].dx + 2 * SUGGESTION_SLACK && out[s].dy == results[i].changes@[k].dy
            + 2 * SUGGESTION_SLACK && sheets_near(results, i, results[i].changes@[k], results.len() as int) >= 3
            && sheets_near(results, i, results[i].changes@[k], results.len() as int) >= (sheets + 1) / 2 by {
        let (i, k) = choose|i: int, k: int|
            0 <= i < results.len() && 0 <= k < results[i].changes@.len() && recurs_on(
                results,
                i,
                results[i].changes@[k],
                results.len() as int,
            ) >= threshold_for(sheets) && #[trigger] out[s] == grown(results[i].changes@[k]);
        let b = results[i].changes@[k];
        assert(grow_fits(b));
        lemma_sheets_near(results, i, b, results.len() as int);
        assert(out[s].x == b.x - SUGGESTION_SLACK);
    }
}

/// No suggestion lies in the place of the change an earlier one came from.
pub open spec fn spread_out(out: Seq<PageRect>) -> bool {
    forall|q1: int, q2: int|
        0 <= q1 < q2 < out.len() ==> !(-SAME_AREA <= #[trigger] out[q1].x - (#[trigger] out[q2].x + SUGGESTION_SLACK)
            <= SAME_AREA && -SAME_ROW <= out[q1].y - (out[q2].y + SUGGESTION_SLACK) <= SAME_ROW)
}

proof fn lemma_in_sheet_spread(results: Seq<SheetChanges>, threshold: int, out: Seq<PageRect>, i: int, k: int)
    requires
        0 <= i < results.len(),
        0 <= k <= results[i].changes@.len(),
        forall|kk: int| 0 <= kk < results[i].changes@.len() ==> #[trigger] grow_fits(results[i].changes@[kk]),
        spread_out(out),
    ensures
        spread_out(suggest_in_sheet(results, threshold, out, i, k)),
    decreases k,
{
    if k > 0 {
        lemma_in_sheet_spread(results, threshold, out, i, k - 1);
        let prev = suggest_in_sheet(results, threshold, out, i, k - 1);
        let b = results[i].changes@[k - 1];
        let next = suggest_in_sheet(results, threshold, out, i, k);
        if next.len() > prev.len() {
            assert(grow_fits(b));
            assert(next == prev.push(grown(b)));
            assert(!near_any(prev, b));
            assert forall|q1: int, q2: int| 0 <= q1 < q2 < next.len() implies !(-SAME_AREA <= #[trigger] next[q1].x
                - (#[trigger] next[q2].x + SUGGESTION_SLACK) <= SAME_AREA && -SAME_ROW <= next[q1].y - (next[q2].y
                + SUGGESTION_SLACK) <= SAME_ROW) by {
                assert(next[q1] == prev[q1]);
                if q2 < prev.len() {
                    assert(next[q2] == prev[q2]);
                } else {
                    assert(next[q2] == grown(b));
                    assert(!same_place(prev[q1], b));
                }
            }
        }
    }
}

proof fn lemma_upto_spread(results: Seq<SheetChanges>, threshold: int, n: int)
    requires
        0 <= n <= results.len(),
        forall|i: int, k: int|
            0 <= i < results.len() && 0 <= k < results[i].changes@.len() ==> #[trigger] grow_fits(
                results[i].changes@[k],
            ),
    ensures
        spread_out(suggest_upto(results, threshold, n)),
    decreases n,
{
    if n > 0 {
        lemma_upto_spread(results, threshold, n - 1);
        assert forall|kk: int| 0 <= kk < results[n - 1].changes@.len() implies #[trigger] grow_fits(
            results[n - 1].changes@[kk],
        ) by {}
        lemma_in_sheet_spread(
            results,
            threshold,
            suggest_upto(results, threshold, n - 1),
            n - 1,
            results[n - 1].changes@.len() as int,
        );
    }
}

/// One suggestion per place: no suggestion lies within `SAME_AREA` along the
/// row and `SAME_ROW` across it of the change a later suggestion was grown
/// from, so one recurring field is never offered twice.
pub proof fn law_each_place_is_offered_once(results: Seq<SheetChanges>, sheets: int)
    requires
        forall|i: int, k: int|
            0 <= i < results.len() && 0 <= k < results[i].changes@.len() ==> #[trigger] grow_fits(
                results[i].changes@[k],
            ),
    ensures
        spread_out(spec_suggest_ignores(results, sheets)),
{
    if !(sheets < 4 || results.len() < sheets) {
        lemma_upto_spread(results, threshold_for(sheets), results.len() as int);
    }
}

} // verus!
