use vstd::prelude::*;

verus! {

/// The visible length that a page should not exceed, counted in characters
/// of the text a reader sees (markup and entities are not counted).
pub const PAGE_BUDGET: usize = 1000;

/// The summed widths of units `a` up to (not including) `b`.
pub open spec fn sum_widths(ws: Seq<usize>, a: int, b: int) -> int
    decreases b - a,
{
    if b <= a {
        0
    } else {
        sum_widths(ws, a, b - 1) + ws[b - 1] as int
    }
}

/// The visible length of a page holding units `a..b` under a title: the
/// title, two line breaks, the units, and one line break between each two.
pub open spec fn page_width(tw: int, ws: Seq<usize>, a: int, b: int) -> int {
    tw + 2 + sum_widths(ws, a, b) + (b - a - 1)
}

pub open spec fn fits(tw: int, ws: Seq<usize>, a: int, b: int) -> bool {
    page_width(tw, ws, a, b) <= PAGE_BUDGET
}

/// The ranges split units `0..ws.len()` into consecutive non-empty runs, in
/// order: no unit is left out, repeated, or shared by two pages.
pub open spec fn covers_in_order(n: int, r: Seq<(usize, usize)>) -> bool {
    &&& (r.len() == 0 <==> n == 0)
    &&& r.len() > 0 ==> r[0].0 == 0 && r.last().1 == n
    &&& forall|i: int| 0 <= i < r.len() ==> (#[trigger] r[i]).0 < r[i].1
    &&& forall|i: int| 0 <= i < r.len() - 1 ==> (#[trigger] r[i]).1 == r[i + 1].0
}

/// Every page keeps to the budget, unless it holds a single unit.
pub open spec fn within_budget(tw: int, ws: Seq<usize>, r: Seq<(usize, usize)>) -> bool {
    forall|i: int|
        0 <= i < r.len() ==> fits(tw, ws, (#[trigger] r[i]).0 as int, r[i].1 as int) || r[i].1
            == r[i].0 + 1
}

/// No page but the last could have taken the next unit as well.
pub open spec fn filled(tw: int, ws: Seq<usize>, r: Seq<(usize, usize)>) -> bool {
    forall|i: int|
        0 <= i < r.len() - 1 ==> !fits(tw, ws, (#[trigger] r[i]).0 as int, r[i].1 + 1)
}

pub open spec fn capped(x: int) -> int {
    if x <= PAGE_BUDGET { x } else { PAGE_BUDGET + 1 }
}

proof fn lemma_sum_step(ws: Seq<usize>, a: int, b: int)
    requires
        a < b,
    ensures
        sum_widths(ws, a, b) == sum_widths(ws, a, b - 1) + ws[b - 1],
{
}

/// The facts a plan keeps about the pages it has closed so far, all of
/// them before unit `a`.
pub open spec fn closed_before(tw: int, ws: Seq<usize>, r: Seq<(usize, usize)>, a: int) -> bool {
    &&& r.len() == 0 ==> a == 0
    &&& r.len() > 0 ==> r[0].0 == 0 && r.last().1 == a
    &&& forall|i: int| 0 <= i < r.len() ==> (#[trigger] r[i]).0 < r[i].1
    &&& forall|i: int| 0 <= i < r.len() - 1 ==> (#[trigger] r[i]).1 == r[i + 1].0
    &&& within_budget(tw, ws, r)
    &&& forall|i: int| 0 <= i < r.len() ==> !fits(tw, ws, (#[trigger] r[i]).0 as int, r[i].1 + 1)
}

proof fn lemma_close_page(tw: int, ws: Seq<usize>, r: Seq<(usize, usize)>, a: usize, j: usize)
    requires
        closed_before(tw, ws, r, a as int),
        a < j,
        fits(tw, ws, a as int, j as int) || j == a + 1,
        !fits(tw, ws, a as int, j + 1),
    ensures
        closed_before(tw, ws, r.push((a, j)), j as int),
{
    let s = r.push((a, j));
    assert forall|i: int| 0 <= i < s.len() - 1 implies (#[trigger] s[i]).1 == s[i + 1].0 by {
        if i == s.len() - 2 {
            assert(s[i] == r.last());
        } else {
            assert(s[i] == r[i]);
            assert(s[i + 1] == r[i + 1]);
        }
    }
    assert forall|i: int| 0 <= i < s.len() implies fits(tw, ws, (#[trigger] s[i]).0 as int, s[i].1 as int) || s[i].1 == s[i].0 + 1 by {
        if i < r.len() {
            assert(s[i] == r[i]);
        }
    }
    assert forall|i: int| 0 <= i < s.len() implies !fits(tw, ws, (#[trigger] s[i]).0 as int, s[i].1 + 1) by {
        if i < r.len() {
            assert(s[i] == r[i]);
        }
    }
    assert forall|i: int| 0 <= i < s.len() implies (#[trigger] s[i]).0 < s[i].1 by {
        if i < r.len() {
            assert(s[i] == r[i]);
        }
    }
}

proof fn lemma_last_page(tw: int, ws: Seq<usize>, r: Seq<(usize, usize)>, a: usize, n: usize)
    requires
        closed_before(tw, ws, r, a as int),
        n == ws.len(),
        a < n,
        fits(tw, ws, a as int, n as int) || n == a + 1,
    ensures
        covers_in_order(n as int, r.push((a, n))),
        within_budget(tw, ws, r.push((a, n))),
        filled(tw, ws, r.push((a, n))),
{
    let s = r.push((a, n));
    assert forall|i: int| 0 <= i < s.len() - 1 implies (#[trigger] s[i]).1 == s[i + 1].0 by {
        if i == s.len() - 2 {
            assert(s[i] == r.last());
        } else {
            assert(s[i] == r[i]);
            assert(s[i + 1] == r[i + 1]);
        }
    }
    assert forall|i: int| 0 <= i < s.len() implies fits(tw, ws, (#[trigger] s[i]).0 as int, s[i].1 as int) || s[i].1 == s[i].0 + 1 by {
        if i < r.len() {
            assert(s[i] == r[i]);
        }
    }
    assert forall|i: int| 0 <= i < s.len() - 1 implies !fits(tw, ws, (#[trigger] s[i]).0 as int, s[i].1 + 1) by {
        assert(s[i] == r[i]);
    }
    assert forall|i: int| 0 <= i < s.len() implies (#[trigger] s[i]).0 < s[i].1 by {
        if i < r.len() {
            assert(s[i] == r[i]);
        }
    }
}

/// The start of a page's width: the title, two breaks and its first unit,
/// capped just above the budget.
fn first_width(tw: usize, w: usize) -> (r: usize)
    ensures
        r == capped(tw + 2 + w),
{
    if tw <= PAGE_BUDGET && w <= PAGE_BUDGET {
        let x = tw + 2 + w;
        if x <= PAGE_BUDGET { x } else { PAGE_BUDGET + 1 }
    } else {
        PAGE_BUDGET + 1
    }
}

/// Splits units of the given widths into pages under a title of width
/// `title_width`: each page takes units while the page stays within the
/// budget, and a unit that does not fit starts the next page.
pub fn plan_pages(title_width: usize, widths: &Vec<usize>) -> (r: Vec<(usize, usize)>)
    ensures
        covers_in_order(widths@.len() as int, r@),
        within_budget(title_width as int, widths@, r@),
        filled(title_width as int, widths@, r@),
{
    let ghost tw = title_width as int;
    let ghost ws = widths@;
    let mut r: Vec<(usize, usize)> = Vec::new();
    let n = widths.len();
    if n == 0 {
        return r;
    }
    let mut a: usize = 0;
    let mut cw: usize = first_width(title_width, widths[0]);
    proof {
        lemma_sum_step(ws, 0, 1);
    }
    let mut j: usize = 1;
    while j < n
        invariant
            ws == widths@,
            tw == title_width as int,
            n == ws.len(),
            1 <= j <= n,
            a < j,
            cw as int == capped(page_width(tw, ws, a as int, j as int)),
            fits(tw, ws, a as int, j as int) || j == a + 1,
            closed_before(tw, ws, r@, a as int),
        decreases n - j,
    {
        let w = widths[j];
        proof {
            lemma_sum_step(ws, a as int, j + 1);
            assert(page_width(tw, ws, a as int, j + 1) == page_width(tw, ws, a as int, j as int) + w + 1);
        }
        if cw <= PAGE_BUDGET && w < PAGE_BUDGET - cw {
            cw = cw + w + 1;
            assert(cw as int == page_width(tw, ws, a as int, j + 1));
            assert(cw as int == capped(page_width(tw, ws, a as int, j + 1)));
        } else {
            proof {
                lemma_close_page(tw, ws, r@, a, j);
            }
            r.push((a, j));
            a = j;
            cw = first_width(title_width, w);
            proof {
                lemma_sum_step(ws, j as int, j + 1);
                assert(sum_widths(ws, j as int, j as int) == 0);
                assert(page_width(tw, ws, j as int, j + 1) == tw + 2 + w);
                assert(cw as int == capped(page_width(tw, ws, a as int, j + 1)));
            }
        }
        j = j + 1;
    }
    proof {
        lemma_last_page(tw, ws, r@, a, n);
    }
    r.push((a, n));
    r
}

/// A plan has no more pages than units.
pub proof fn lemma_plan_len(n: int, r: Seq<(usize, usize)>)
    requires
        covers_in_order(n, r),
    ensures
        r.len() <= n,
{
    if r.len() > 0 {
        lemma_plan_starts(n, r, r.len() - 1);
    }
}

proof fn lemma_plan_starts(n: int, r: Seq<(usize, usize)>, i: int)
    requires
        covers_in_order(n, r),
        0 <= i < r.len(),
    ensures
        r[i].0 >= i,
    decreases i,
{
    if i > 0 {
        lemma_plan_starts(n, r, i - 1);
        assert(r[i - 1].1 == r[i].0);
        assert(r[i - 1].0 < r[i - 1].1);
    }
}

} // verus!
