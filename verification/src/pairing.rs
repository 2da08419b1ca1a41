use vstd::prelude::*;

verus! {

/// Which sheet of each document a virtual page stands for.
///
/// A pair with one side 0 is a sheet that exists in only one revision: it
/// renders as entirely added or entirely removed rather than as a plain page.
#[derive(Clone, Copy, PartialEq, Eq, Debug, Default, Structural)]
pub struct Pair {
    /// 1-based page in the first document; 0 means no matching sheet.
    pub page_a: i32,
    /// 1-based page in the second document; 0 means no matching sheet.
    pub page_b: i32,
}

/// Lays the two documents' sheets side by side on one axis, offset by
/// `page_delta`: sheet *n* of the first document pairs with sheet *n + delta* of
/// the second.
#[derive(Clone, Copy, PartialEq, Eq, Debug, Default, Structural)]
pub struct Pairing {
    pub n_a: i32,
    pub n_b: i32,
    pub page_delta: i32,
    pub first_a_page: i32,
    pub page_count: i32,
}

pub open spec fn min_i(a: int, b: int) -> int {
    if a <= b {
        a
    } else {
        b
    }
}

pub open spec fn max_i(a: int, b: int) -> int {
    if a >= b {
        a
    } else {
        b
    }
}

/// The pair a virtual page stands for: sheet `a` of the first document and
/// `a + delta` of the second, each 0 where that document has no such sheet;
/// `(0, 0)` for a page outside the range.
pub open spec fn spec_at(p: Pairing, page_no: int) -> Pair {
    if page_no < 1 || page_no > p.page_count {
        Pair { page_a: 0, page_b: 0 }
    } else {
        let a = p.first_a_page + page_no - 1;
        let b = a + p.page_delta;
        Pair {
            page_a: if 1 <= a <= p.n_a { a as i32 } else { 0 },
            page_b: if 1 <= b <= p.n_b { b as i32 } else { 0 },
        }
    }
}

/// Whether building a pairing for these counts and offset stays in range.
pub open spec fn build_fits(n_a: int, n_b: int, delta: int) -> bool {
    let first = min_i(0, -delta);
    let last = max_i(n_a, n_b - delta);
    &&& i32::MIN <= -delta <= i32::MAX
    &&& i32::MIN <= n_b - delta <= i32::MAX
    &&& i32::MIN <= last - first <= i32::MAX
}

/// The pairing `Pairing::build` makes of these counts and offset.
pub open spec fn spec_build(n_a: int, n_b: int, delta: int) -> Pairing {
    let first = min_i(0, -delta);
    let last = max_i(n_a, n_b - delta);
    Pairing {
        n_a: n_a as i32,
        n_b: n_b as i32,
        page_delta: delta as i32,
        first_a_page: (first + 1) as i32,
        page_count: max_i(0, last - first) as i32,
    }
}

impl Pairing {
    /// The virtual page range covers *both* documents, so it can start before
    /// the first document's page 1 when the second one has extra sheets ahead of
    /// it. Leaving a sheet unreachable would silently hide a whole page.
    pub fn build(n_a: i32, n_b: i32, delta: i32) -> (p: Self)
        requires
            build_fits(n_a as int, n_b as int, delta as int),
        ensures
            ({
                let first = min_i(0, -delta);
                let last = max_i(n_a as int, n_b - delta);
                p == Pairing {
                    n_a,
                    n_b,
                    page_delta: delta,
                    first_a_page: (first + 1) as i32,
                    page_count: max_i(0, last - first) as i32,
                }
            }),
    {
        let neg = -delta;
        let first = if 0 < neg {
            0
        } else {
            neg
        };
        let nb = n_b - delta;
        let last = if n_a > nb {
            n_a
        } else {
            nb
        };
        let span = last - first;
        Pairing {
            n_a,
            n_b,
            page_delta: delta,
            first_a_page: first + 1,
            page_count: if 0 > span {
                0
            } else {
                span
            },
        }
    }

    /// Which sheet of each document virtual page `page_no` stands for.
    pub fn at(&self, page_no: i32) -> (pair: Pair)
        ensures
            pair == spec_at(*self, page_no as int),
    {
        if page_no < 1 || page_no > self.page_count {
            return Pair { page_a: 0, page_b: 0 };
        }
        let a: i64 = self.first_a_page as i64 + page_no as i64 - 1;
        let b: i64 = a + self.page_delta as i64;
        Pair {
            page_a: if a >= 1 && a <= self.n_a as i64 {
                a as i32
            } else {
                0
            },
            page_b: if b >= 1 && b <= self.n_b as i64 {
                b as i32
            } else {
                0
            },
        }
    }
}

/// Whether some virtual page stands for sheet `k` of the first document.
pub open spec fn shows_sheet_a(p: Pairing, k: int) -> bool {
    exists|page: int| 1 <= page <= p.page_count && #[trigger] spec_at(p, page).page_a == k
}

/// Whether some virtual page stands for sheet `k` of the second document.
pub open spec fn shows_sheet_b(p: Pairing, k: int) -> bool {
    exists|page: int| 1 <= page <= p.page_count && #[trigger] spec_at(p, page).page_b == k
}

/// Whatever the offset, every sheet of the first document stands on exactly one
/// virtual page, and so does every sheet of the second: no sheet is left
/// unreachable and none is shown twice.
pub proof fn law_pairing_covers_every_sheet(n_a: i32, n_b: i32, delta: i32)
    requires
        n_a >= 0,
        n_b >= 0,
        build_fits(n_a as int, n_b as int, delta as int),
    ensures
        ({
            let first = min_i(0, -delta);
            let last = max_i(n_a as int, n_b - delta);
            let p = Pairing {
                n_a,
                n_b,
                page_delta: delta,
                first_a_page: (first + 1) as i32,
                page_count: max_i(0, last - first) as i32,
            };
            &&& forall|k: int| 1 <= k <= n_a ==> #[trigger] shows_sheet_a(p, k)
            &&& forall|k: int| 1 <= k <= n_b ==> #[trigger] shows_sheet_b(p, k)
            &&& forall|p1: int, p2: int|
                1 <= p1 <= p.page_count && 1 <= p2 <= p.page_count && spec_at(p, p1).page_a != 0
                    && #[trigger] spec_at(p, p1).page_a == #[trigger] spec_at(p, p2).page_a ==> p1 == p2
            &&& forall|p1: int, p2: int|
                1 <= p1 <= p.page_count && 1 <= p2 <= p.page_count && spec_at(p, p1).page_b != 0
                    && #[trigger] spec_at(p, p1).page_b == #[trigger] spec_at(p, p2).page_b ==> p1 == p2
        }),
{
    let first = min_i(0, -delta);
    let last = max_i(n_a as int, n_b - delta);
    let p = Pairing {
        n_a,
        n_b,
        page_delta: delta,
        first_a_page: (first + 1) as i32,
        page_count: max_i(0, last - first) as i32,
    };
    assert forall|k: int| 1 <= k <= n_a implies #[trigger] shows_sheet_a(p, k) by {
        let page = k - first;
        assert(spec_at(p, page).page_a == k);
    }
    assert forall|k: int| 1 <= k <= n_b implies #[trigger] shows_sheet_b(p, k) by {
        let page = k - delta - first;
        assert(spec_at(p, page).page_b == k);
    }
}

/// A page outside the virtual range is "no sheet on either side", not a wrapped
/// index or a failure.
pub proof fn law_pairing_out_of_range_is_empty(p: Pairing, page_no: int)
    requires
        page_no < 1 || page_no > p.page_count,
    ensures
        spec_at(p, page_no) == (Pair { page_a: 0, page_b: 0 }),
{
}

} // verus!
